use sp_core::Pair as _;
use utxo_ledger::encoding::{content_hash, derive_output_key, encode_transaction, signing_hash};
use utxo_ledger::ledger::{apply_transaction, commit_effects, validate_transaction, BlockContext, ValidationError};
use utxo_ledger::types::{Transaction, TransactionInput, TransactionOutput};
use utxo_ledger::utxo_set::UtxoSet;

const K1: [u8; 32] = [1u8; 32];

fn pair(seed: u8) -> sp_core::sr25519::Pair {
    sp_core::sr25519::Pair::from_seed(&[seed; 32])
}

fn owner(seed: u8) -> [u8; 32] {
    pair(seed).public().0
}

fn ctx() -> BlockContext {
    BlockContext { height: 1, author: owner(9), issuance: 0 }
}

fn sign_all(tx: &mut Transaction, signers: &[u8]) {
    let msg = signing_hash(tx);
    for (input, seed) in tx.inputs.iter_mut().zip(signers.iter()) {
        input.sigscript = pair(*seed).sign(&msg).0;
    }
}

fn out(value: u128, seed: u8) -> TransactionOutput {
    TransactionOutput { value, pubkey: owner(seed) }
}

fn spend(outpoint: [u8; 32]) -> TransactionInput {
    TransactionInput { outpoint, sigscript: [0u8; 64] }
}

/// The set {K1: (100, A)} with A the owner of seed 1.
fn genesis() -> UtxoSet {
    let mut set = UtxoSet::new();
    set.insert(K1, out(100, 1));
    set
}

#[test]
fn spend_splits_output() {
    let mut set = genesis();
    let mut tx = Transaction { inputs: vec![spend(K1)], outputs: vec![out(60, 2), out(40, 3)] };
    sign_all(&mut tx, &[1]);
    let ev = apply_transaction(&mut set, tx.clone(), &ctx()).unwrap();
    assert_eq!(ev.transaction, tx);
    assert!(!set.contains(&K1));
    assert_eq!(set.len(), 2);
    let h = content_hash(&tx);
    let k0 = derive_output_key(&h, 0);
    let k1 = derive_output_key(&h, 1);
    assert_eq!(set.get(&k0), Some(out(60, 2)));
    assert_eq!(set.get(&k1), Some(out(40, 3)));
    assert_eq!(ev.effects.removals, vec![(K1, out(100, 1))]);
    assert_eq!(ev.effects.insertions, vec![(k0, out(60, 2)), (k1, out(40, 3))]);
}

#[test]
fn overspend_is_insufficient() {
    let mut set = genesis();
    let mut tx = Transaction { inputs: vec![spend(K1)], outputs: vec![out(100, 2), out(50, 3)] };
    sign_all(&mut tx, &[1]);
    assert_eq!(apply_transaction(&mut set, tx, &ctx()).err(), Some(ValidationError::InsufficientValue));
    assert_eq!(set.len(), 1);
    assert_eq!(set.get(&K1), Some(out(100, 1)));
}

#[test]
fn duplicate_input_before_signatures() {
    let mut set = genesis();
    // the signatures are left blank: the duplicate is found first
    let tx = Transaction { inputs: vec![spend(K1), spend(K1)], outputs: vec![out(10, 2)] };
    assert_eq!(apply_transaction(&mut set, tx, &ctx()).err(), Some(ValidationError::DuplicateInput));
    assert_eq!(set.get(&K1), Some(out(100, 1)));
}

#[test]
fn second_spend_is_missing_input() {
    let mut set = genesis();
    let mut t1 = Transaction { inputs: vec![spend(K1)], outputs: vec![out(100, 2)] };
    sign_all(&mut t1, &[1]);
    assert!(apply_transaction(&mut set, t1, &ctx()).is_ok());
    let mut t2 = Transaction { inputs: vec![spend(K1)], outputs: vec![out(50, 3)] };
    sign_all(&mut t2, &[1]);
    assert_eq!(apply_transaction(&mut set, t2, &ctx()).err(), Some(ValidationError::MissingInput));
}

#[test]
fn unknown_input_is_missing() {
    let set = genesis();
    let tx = Transaction { inputs: vec![spend([7u8; 32])], outputs: vec![out(1, 2)] };
    assert_eq!(validate_transaction(&set, &tx, &ctx()).err(), Some(ValidationError::MissingInput));
}

#[test]
fn empty_outputs_rejected() {
    let mut set = genesis();
    let mut tx = Transaction { inputs: vec![spend(K1)], outputs: vec![] };
    sign_all(&mut tx, &[1]);
    assert_eq!(apply_transaction(&mut set, tx, &ctx()).err(), Some(ValidationError::EmptyOutputs));
    assert_eq!(set.len(), 1);
}

#[test]
fn one_bad_signature_changes_nothing() {
    let k2 = [2u8; 32];
    let mut set = genesis();
    set.insert(k2, out(30, 4));
    let mut tx = Transaction { inputs: vec![spend(K1), spend(k2)], outputs: vec![out(120, 2)] };
    // the second input is signed by someone other than its owner
    sign_all(&mut tx, &[1, 5]);
    assert_eq!(apply_transaction(&mut set, tx, &ctx()).err(), Some(ValidationError::InvalidSignature));
    assert_eq!(set.len(), 2);
    assert_eq!(set.get(&K1), Some(out(100, 1)));
    assert_eq!(set.get(&k2), Some(out(30, 4)));
}

#[test]
fn signature_over_other_transaction_rejected() {
    let set = genesis();
    let mut other = Transaction { inputs: vec![spend(K1)], outputs: vec![out(1, 2)] };
    sign_all(&mut other, &[1]);
    let tx = Transaction { inputs: other.inputs.clone(), outputs: vec![out(99, 2)] };
    assert_eq!(validate_transaction(&set, &tx, &ctx()).err(), Some(ValidationError::InvalidSignature));
}

#[test]
fn output_sum_overflow_rejected() {
    let mut set = genesis();
    let mut tx = Transaction { inputs: vec![spend(K1)], outputs: vec![out(u128::MAX, 2), out(1, 3)] };
    sign_all(&mut tx, &[1]);
    assert_eq!(apply_transaction(&mut set, tx, &ctx()).err(), Some(ValidationError::ArithmeticOverflow));
    assert_eq!(set.get(&K1), Some(out(100, 1)));
}

#[test]
fn input_sum_overflow_rejected() {
    let k2 = [2u8; 32];
    let mut set = UtxoSet::new();
    set.insert(K1, out(u128::MAX, 1));
    set.insert(k2, out(1, 1));
    let mut tx = Transaction { inputs: vec![spend(K1), spend(k2)], outputs: vec![out(1, 2)] };
    sign_all(&mut tx, &[1, 1]);
    assert_eq!(validate_transaction(&set, &tx, &ctx()).err(), Some(ValidationError::ArithmeticOverflow));
}

#[test]
fn fee_is_allowed() {
    let mut set = genesis();
    let mut tx = Transaction { inputs: vec![spend(K1)], outputs: vec![out(90, 2)] };
    sign_all(&mut tx, &[1]);
    assert!(apply_transaction(&mut set, tx, &ctx()).is_ok());
    assert_eq!(set.len(), 1);
}

#[test]
fn reward_transaction_spends_issuance() {
    let mut set = UtxoSet::new();
    let c = BlockContext { height: 5, author: owner(9), issuance: 50 };
    let tx = Transaction { inputs: vec![], outputs: vec![out(30, 9), out(20, 9)] };
    assert!(apply_transaction(&mut set, tx, &c).is_ok());
    assert_eq!(set.len(), 2);
}

#[test]
fn reward_beyond_issuance_rejected() {
    let set = UtxoSet::new();
    let c = BlockContext { height: 5, author: owner(9), issuance: 50 };
    let tx = Transaction { inputs: vec![], outputs: vec![out(51, 9)] };
    assert_eq!(validate_transaction(&set, &tx, &c).err(), Some(ValidationError::InsufficientValue));
}

#[test]
fn issuance_only_for_author() {
    let set = UtxoSet::new();
    let c = BlockContext { height: 5, author: owner(9), issuance: 50 };
    let tx = Transaction { inputs: vec![], outputs: vec![out(10, 9), out(10, 2)] };
    assert_eq!(validate_transaction(&set, &tx, &c).err(), Some(ValidationError::InsufficientValue));
}

#[test]
fn transactions_with_inputs_get_no_issuance() {
    let set = genesis();
    let c = BlockContext { height: 5, author: owner(1), issuance: 50 };
    let mut tx = Transaction { inputs: vec![spend(K1)], outputs: vec![out(120, 1)] };
    sign_all(&mut tx, &[1]);
    assert_eq!(validate_transaction(&set, &tx, &c).err(), Some(ValidationError::InsufficientValue));
}

#[test]
fn validate_changes_nothing() {
    let set = genesis();
    let mut tx = Transaction { inputs: vec![spend(K1)], outputs: vec![out(60, 2)] };
    sign_all(&mut tx, &[1]);
    let e = validate_transaction(&set, &tx, &ctx()).unwrap();
    assert_eq!(e.removals.len(), 1);
    assert_eq!(e.insertions.len(), 1);
    assert_eq!(set.get(&K1), Some(out(100, 1)));
}

#[test]
fn stale_effects_conflict() {
    let mut set = genesis();
    let mut tx = Transaction { inputs: vec![spend(K1)], outputs: vec![out(60, 2)] };
    sign_all(&mut tx, &[1]);
    let e = validate_transaction(&set, &tx, &ctx()).unwrap();
    assert_eq!(commit_effects(&mut set, &e), Ok(()));
    assert_eq!(commit_effects(&mut set, &e), Err(ValidationError::Conflict));
    assert_eq!(set.len(), 1);
}

#[test]
fn key_derivation_deterministic() {
    let h = [3u8; 32];
    assert_eq!(derive_output_key(&h, 4), derive_output_key(&h, 4));
    assert_ne!(derive_output_key(&h, 0), derive_output_key(&h, 1));
}

#[test]
fn encoding_of_small_transaction() {
    let tx = Transaction { inputs: vec![], outputs: vec![TransactionOutput { value: 1, pubkey: [0u8; 32] }] };
    let mut expected = vec![0u8, 4u8, 1u8];
    expected.extend_from_slice(&[0u8; 15]);
    expected.extend_from_slice(&[0u8; 32]);
    assert_eq!(encode_transaction(&tx, false), expected);
}

#[test]
fn encoding_of_inputs_and_blank_signatures() {
    let input = TransactionInput { outpoint: [5u8; 32], sigscript: [6u8; 64] };
    let tx = Transaction { inputs: vec![input], outputs: vec![TransactionOutput { value: 0x0102, pubkey: [8u8; 32] }] };
    let signed = encode_transaction(&tx, false);
    let blank = encode_transaction(&tx, true);
    assert_eq!(signed.len(), 1 + 96 + 1 + 48);
    assert_eq!(signed[0], 4);
    assert_eq!(&signed[1..33], &[5u8; 32][..]);
    assert_eq!(&signed[33..97], &[6u8; 64][..]);
    assert_eq!(&blank[33..97], &[0u8; 64][..]);
    assert_eq!(signed[97], 4);
    assert_eq!(&signed[98..101], &[2u8, 1u8, 0u8][..]);
}

#[test]
fn encoding_of_long_output_list() {
    let outputs = vec![TransactionOutput { value: 0, pubkey: [0u8; 32] }; 64];
    let tx = Transaction { inputs: vec![], outputs };
    let bytes = encode_transaction(&tx, false);
    assert_eq!(&bytes[0..3], &[0u8, 1u8, 1u8][..]);
    assert_eq!(bytes.len(), 3 + 64 * 48);
}

#[test]
fn content_hash_is_blake2_256() {
    let tx = Transaction { inputs: vec![], outputs: vec![TransactionOutput { value: 1, pubkey: [0u8; 32] }] };
    let h = content_hash(&tx);
    assert_eq!(
        h,
        [
            41, 201, 146, 180, 72, 103, 129, 141, 239, 58, 75, 3, 220, 88, 216, 2, 202, 254, 97, 10, 95, 34, 147, 50,
            170, 104, 195, 14, 126, 107, 52, 67
        ]
    );
    assert_eq!(
        derive_output_key(&h, 0),
        [
            32, 127, 128, 110, 205, 193, 236, 42, 21, 76, 210, 82, 75, 51, 72, 191, 51, 3, 33, 40, 92, 124, 248, 151,
            149, 160, 150, 78, 26, 179, 185, 104
        ]
    );
    assert_eq!(
        derive_output_key(&h, 1),
        [
            149, 4, 1, 28, 51, 159, 164, 222, 146, 137, 206, 148, 79, 38, 242, 25, 230, 227, 1, 4, 243, 166, 56, 76,
            66, 136, 252, 177, 209, 80, 205, 151
        ]
    );
}

#[test]
fn utxo_set_operations() {
    let mut set = UtxoSet::new();
    assert_eq!(set.len(), 0);
    set.insert(K1, out(1, 1));
    set.insert(K1, out(2, 1));
    assert_eq!(set.len(), 1);
    assert_eq!(set.get(&K1), Some(out(2, 1)));
    set.remove(&K1);
    assert!(!set.contains(&K1));
    set.remove(&K1);
    assert_eq!(set.len(), 0);
}
