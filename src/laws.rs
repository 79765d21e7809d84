use vstd::prelude::*;
use crate::encoding::{encodable, le_bytes, output_key_of, signing_hash_of, sr25519_verifies};
use crate::ledger::{
    all_resolved, all_signed, applied, effects_of, has_duplicate_input, input_total, insert_all,
    issuance_credit, output_total, remove_all, validation_error, BlockContext, Effects, ValidationError,
};
use crate::types::{OutputKey, Transaction, TransactionOutput};

verus! {

proof fn lemma_remove_all_absent(m: Map<OutputKey, TransactionOutput>, s: Seq<(OutputKey, TransactionOutput)>, i: int)
    requires
        0 <= i < s.len(),
    ensures
        !remove_all(m, s).contains_key(s[i].0),
    decreases s.len(),
{
    if i < s.len() - 1 {
        lemma_remove_all_absent(m, s.drop_last(), i);
        assert(s.drop_last()[i] == s[i]);
    }
}

proof fn lemma_insert_all_from(m: Map<OutputKey, TransactionOutput>, s: Seq<(OutputKey, TransactionOutput)>, k: OutputKey)
    requires
        insert_all(m, s).contains_key(k),
        forall|i: int| 0 <= i < s.len() ==> (#[trigger] s[i]).0 != k,
    ensures
        m.contains_key(k),
    decreases s.len(),
{
    if s.len() > 0 {
        assert(s.last() == s[s.len() - 1]);
        assert forall|i: int| 0 <= i < s.drop_last().len() implies (#[trigger] s.drop_last()[i]).0 != k by {
            assert(s.drop_last()[i] == s[i]);
        }
        lemma_insert_all_from(m, s.drop_last(), k);
    }
}

/// Once a transaction that spends an outpoint has been applied, every other
/// transaction that names the same outpoint is rejected as `MissingInput`
/// (unless it fails an earlier, structural check).
pub proof fn lemma_no_double_spend(
    m: Map<OutputKey, TransactionOutput>,
    t1: Transaction,
    ctx1: BlockContext,
    e: Effects,
    t2: Transaction,
    ctx2: BlockContext,
    i: int,
    j: int,
)
    requires
        validation_error(m, t1, ctx1) is None,
        effects_of(m, t1, e),
        0 <= i < t1.inputs@.len(),
        0 <= j < t2.inputs@.len(),
        t1.inputs@[i].outpoint == t2.inputs@[j].outpoint,
        t2.outputs@.len() > 0,
        encodable(t2),
    ensures
        validation_error(applied(m, e), t2, ctx2) == Some(ValidationError::MissingInput),
{
    let o = t1.inputs@[i].outpoint;
    assert(e.removals@[i].0 == o);
    lemma_remove_all_absent(m, e.removals@, i);
    assert(m.contains_key(o));
    assert forall|k: int| 0 <= k < e.insertions@.len() implies (#[trigger] e.insertions@[k]).0 != o by {
        assert(e.insertions@[k].0@ == output_key_of(crate::encoding::content_hash_of(t1), k as nat));
    }
    if applied(m, e).contains_key(o) {
        lemma_insert_all_from(remove_all(m, e.removals@), e.insertions@, o);
    }
    assert(!all_resolved(applied(m, e), t2.inputs@));
}

/// Every transaction that passes validation spends no more than its inputs
/// plus the block's issuance.
pub proof fn lemma_value_conservation(m: Map<OutputKey, TransactionOutput>, tx: Transaction, ctx: BlockContext)
    requires
        validation_error(m, tx, ctx) is None,
    ensures
        output_total(tx.outputs@) <= input_total(m, tx.inputs@) + ctx.issuance,
{
}

/// A transaction that passes every check before value conservation, and whose
/// outputs are worth more than its inputs plus the issuance credited to it,
/// is rejected as `InsufficientValue`.
pub proof fn lemma_overspend_rejected(m: Map<OutputKey, TransactionOutput>, tx: Transaction, ctx: BlockContext)
    requires
        tx.outputs@.len() > 0,
        encodable(tx),
        all_resolved(m, tx.inputs@),
        !has_duplicate_input(tx.inputs@),
        all_signed(m, tx),
        output_total(tx.outputs@) <= u128::MAX,
        input_total(m, tx.inputs@) + issuance_credit(tx, ctx) < output_total(tx.outputs@),
    ensures
        validation_error(m, tx, ctx) == Some(ValidationError::InsufficientValue),
{
}

/// A transaction that passes every check before value conservation, and whose
/// outputs sum past the largest value, is rejected as `ArithmeticOverflow`.
pub proof fn lemma_output_overflow_rejected(m: Map<OutputKey, TransactionOutput>, tx: Transaction, ctx: BlockContext)
    requires
        tx.outputs@.len() > 0,
        encodable(tx),
        all_resolved(m, tx.inputs@),
        !has_duplicate_input(tx.inputs@),
        all_signed(m, tx),
        output_total(tx.outputs@) > u128::MAX,
    ensures
        validation_error(m, tx, ctx) == Some(ValidationError::ArithmeticOverflow),
{
}

/// A transaction with an input whose signature does not verify is rejected as
/// `InvalidSignature`, whatever its other inputs carry, once its inputs are
/// resolved and distinct; a rejected transaction changes nothing.
pub proof fn lemma_bad_signature_rejected(m: Map<OutputKey, TransactionOutput>, tx: Transaction, ctx: BlockContext, i: int)
    requires
        tx.outputs@.len() > 0,
        encodable(tx),
        all_resolved(m, tx.inputs@),
        !has_duplicate_input(tx.inputs@),
        0 <= i < tx.inputs@.len(),
        !sr25519_verifies(tx.inputs@[i].sigscript@, signing_hash_of(tx), m[tx.inputs@[i].outpoint].pubkey@),
    ensures
        validation_error(m, tx, ctx) == Some(ValidationError::InvalidSignature),
{
    assert(!all_signed(m, tx));
}

/// 256 to the power `n`.
pub open spec fn byte_range(n: nat) -> nat
    decreases n,
{
    if n == 0 {
        1
    } else {
        256 * byte_range((n - 1) as nat)
    }
}

proof fn lemma_le_bytes_len(v: nat, n: nat)
    ensures
        le_bytes(v, n).len() == n,
    decreases n,
{
    if n > 0 {
        lemma_le_bytes_len(v / 256, (n - 1) as nat);
    }
}

proof fn lemma_le_bytes_injective(v: nat, w: nat, n: nat)
    requires
        v < byte_range(n),
        w < byte_range(n),
        le_bytes(v, n) == le_bytes(w, n),
    ensures
        v == w,
    decreases n,
{
    if n > 0 {
        lemma_le_bytes_len(v / 256, (n - 1) as nat);
        lemma_le_bytes_len(w / 256, (n - 1) as nat);
        assert(le_bytes(v, n)[0] == (v % 256) as u8);
        assert(le_bytes(w, n)[0] == (w % 256) as u8);
        assert(v % 256 == w % 256);
        assert(le_bytes(v / 256, (n - 1) as nat) =~= le_bytes(v, n).subrange(1, n as int));
        assert(le_bytes(w / 256, (n - 1) as nat) =~= le_bytes(w, n).subrange(1, n as int));
        assert(v / 256 < byte_range((n - 1) as nat)) by (nonlinear_arith)
            requires v < 256 * byte_range((n - 1) as nat);
        assert(w / 256 < byte_range((n - 1) as nat)) by (nonlinear_arith)
            requires w < 256 * byte_range((n - 1) as nat);
        lemma_le_bytes_injective(v / 256, w / 256, (n - 1) as nat);
        assert(v == 256 * (v / 256) + v % 256) by (nonlinear_arith);
        assert(w == 256 * (w / 256) + w % 256) by (nonlinear_arith);
    }
}

/// Key derivation is deterministic: two keys that `derive_output_key`
/// returned for the same content hash and index are the same key.
pub proof fn lemma_key_derivation_deterministic(h: Seq<u8>, index: u64, a: OutputKey, b: OutputKey)
    requires
        a@ == output_key_of(h, index as nat),
        b@ == output_key_of(h, index as nat),
    ensures
        a == b,
{
    assert(a =~= b);
}

/// Two indices of one transaction are hashed from different messages, so
/// their keys differ unless the hash collides; validation rejects any
/// transaction whose derived keys coincide.
pub proof fn lemma_key_messages_distinct(h: Seq<u8>, i: u64, j: u64)
    requires
        i != j,
    ensures
        h + le_bytes(i as nat, 8) != h + le_bytes(j as nat, 8),
{
    if h + le_bytes(i as nat, 8) == h + le_bytes(j as nat, 8) {
        lemma_le_bytes_len(i as nat, 8);
        lemma_le_bytes_len(j as nat, 8);
        assert(le_bytes(i as nat, 8) =~= (h + le_bytes(i as nat, 8)).subrange(h.len() as int, h.len() as int + 8));
        assert(le_bytes(j as nat, 8) =~= (h + le_bytes(j as nat, 8)).subrange(h.len() as int, h.len() as int + 8));
        reveal_with_fuel(byte_range, 9);
        assert(byte_range(8) == 0x1_0000_0000_0000_0000);
        lemma_le_bytes_injective(i as nat, j as nat, 8);
    }
}

} // verus!
