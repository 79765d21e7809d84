use vstd::prelude::*;
use crate::types::{OutputKey, PublicKey, SignatureBytes, Transaction, TransactionInput, TransactionOutput};

verus! {

/// The `n` low-order bytes of `v`, least significant first.
pub open spec fn le_bytes(v: nat, n: nat) -> Seq<u8>
    decreases n,
{
    if n == 0 {
        seq![]
    } else {
        seq![(v % 256) as u8] + le_bytes(v / 256, (n - 1) as nat)
    }
}

/// The SCALE compact encoding of a 32-bit length.
pub open spec fn compact_len(n: nat) -> Seq<u8> {
    if n < 0x40 {
        le_bytes(n * 4, 1)
    } else if n < 0x4000 {
        le_bytes(n * 4 + 1, 2)
    } else if n < 0x4000_0000 {
        le_bytes(n * 4 + 2, 4)
    } else {
        seq![3u8] + le_bytes(n, 4)
    }
}

/// Encoding of one input; `blank` stands a zero signature in for the real one.
pub open spec fn input_bytes(i: TransactionInput, blank: bool) -> Seq<u8> {
    if blank {
        i.outpoint@ + Seq::new(64, |j: int| 0u8)
    } else {
        i.outpoint@ + i.sigscript@
    }
}

pub open spec fn inputs_bytes(s: Seq<TransactionInput>, blank: bool) -> Seq<u8>
    decreases s.len(),
{
    if s.len() == 0 {
        seq![]
    } else {
        inputs_bytes(s.drop_last(), blank) + input_bytes(s.last(), blank)
    }
}

pub open spec fn output_bytes(o: TransactionOutput) -> Seq<u8> {
    le_bytes(o.value as nat, 16) + o.pubkey@
}

pub open spec fn outputs_bytes(s: Seq<TransactionOutput>) -> Seq<u8>
    decreases s.len(),
{
    if s.len() == 0 {
        seq![]
    } else {
        outputs_bytes(s.drop_last()) + output_bytes(s.last())
    }
}

/// The canonical (SCALE) encoding of a transaction; with `blank`, every
/// signature is encoded as zeros, which gives the bytes that signers sign.
pub open spec fn transaction_bytes(tx: Transaction, blank: bool) -> Seq<u8> {
    compact_len(tx.inputs@.len()) + inputs_bytes(tx.inputs@, blank) + compact_len(tx.outputs@.len())
        + outputs_bytes(tx.outputs@)
}

/// A transaction can be encoded when both of its lists fit a 32-bit length.
pub open spec fn encodable(tx: Transaction) -> bool {
    tx.inputs@.len() <= u32::MAX && tx.outputs@.len() <= u32::MAX
}

/// The BLAKE2b-256 digest of `data`.
pub uninterp spec fn blake2_256_of(data: Seq<u8>) -> Seq<u8>;

/// Whether `sig` is a valid sr25519 signature of `msg` under public key `key`.
pub uninterp spec fn sr25519_verifies(sig: Seq<u8>, msg: Seq<u8>, key: Seq<u8>) -> bool;

/// The content hash that identifies a transaction.
pub open spec fn content_hash_of(tx: Transaction) -> Seq<u8> {
    blake2_256_of(transaction_bytes(tx, false))
}

/// The message every input of `tx` must sign: the hash of its encoding with
/// blank signatures, so that a signature covers every input and output.
pub open spec fn signing_hash_of(tx: Transaction) -> Seq<u8> {
    blake2_256_of(transaction_bytes(tx, true))
}

/// The key of the output at `index` of the transaction with content hash `h`:
/// the hash of the encoding of the pair `(h, index)`.
pub open spec fn output_key_of(h: Seq<u8>, index: nat) -> Seq<u8> {
    blake2_256_of(h + le_bytes(index, 8))
}

/// Relies on parity_scale_codec's `Encode` for `Compact<u32>`: the compact
/// encoding, one to five bytes.
#[verifier::external_body]
fn encode_compact_u32(n: u32) -> (r: Vec<u8>)
    ensures
        r@ == compact_len(n as nat),
{
    parity_scale_codec::Encode::encode(&parity_scale_codec::Compact(n))
}

/// Relies on parity_scale_codec's `Encode` for `u128`: sixteen bytes, little endian.
#[verifier::external_body]
fn encode_u128(v: u128) -> (r: Vec<u8>)
    ensures
        r@ == le_bytes(v as nat, 16),
{
    parity_scale_codec::Encode::encode(&v)
}

/// Relies on parity_scale_codec's `Encode` for `u64`: eight bytes, little endian.
#[verifier::external_body]
fn encode_u64(v: u64) -> (r: Vec<u8>)
    ensures
        r@ == le_bytes(v as nat, 8),
{
    parity_scale_codec::Encode::encode(&v)
}

/// Relies on sp_core's `Blake2Hasher` (BLAKE2b with a 256-bit digest); the
/// digest depends on the bytes alone.
#[verifier::external_body]
pub(crate) fn blake2_256(data: &Vec<u8>) -> (r: [u8; 32])
    ensures
        r@ == blake2_256_of(data@),
{
    <sp_core::Blake2Hasher as sp_core::Hasher>::hash(data.as_slice()).0
}

/// Relies on sp_core's `sr25519::Pair::verify`, which depends on its three
/// arguments alone.
#[verifier::external_body]
pub(crate) fn verify_sr25519(sig: &SignatureBytes, msg: &[u8; 32], key: &PublicKey) -> (r: bool)
    ensures
        r == sr25519_verifies(sig@, msg@, key@),
{
    <sp_core::sr25519::Pair as sp_core::Pair>::verify(
        &sp_core::sr25519::Signature::from_raw(*sig),
        msg,
        &sp_core::sr25519::Public::from_raw(*key),
    )
}

/// Appends the bytes of `src` to `out`.
fn append_bytes(out: &mut Vec<u8>, src: &[u8])
    ensures
        final(out)@ == old(out)@ + src@,
{
    let ghost start = out@;
    let mut i: usize = 0;
    while i < src.len()
        invariant
            i <= src@.len(),
            out@ == start + src@.subrange(0, i as int),
        decreases src@.len() - i,
    {
        out.push(src[i]);
        i = i + 1;
        assert(src@.subrange(0, i as int) == src@.subrange(0, i - 1 as int).push(src@[i - 1]));
    }
    assert(src@.subrange(0, src@.len() as int) == src@);
}

/// The canonical encoding of `tx`; with `blank`, signatures are encoded as zeros.
pub fn encode_transaction(tx: &Transaction, blank: bool) -> (r: Vec<u8>)
    requires
        encodable(*tx),
    ensures
        r@ == transaction_bytes(*tx, blank),
{
    let mut out = encode_compact_u32(tx.inputs.len() as u32);
    let zeros: [u8; 64] = [0u8; 64];
    assert(zeros@ == Seq::new(64, |j: int| 0u8));
    let mut i: usize = 0;
    while i < tx.inputs.len()
        invariant
            i <= tx.inputs@.len(),
            out@ == compact_len(tx.inputs@.len()) + inputs_bytes(tx.inputs@.take(i as int), blank),
            zeros@ == Seq::new(64, |j: int| 0u8),
        decreases tx.inputs@.len() - i,
    {
        let input = tx.inputs[i];
        append_bytes(&mut out, input.outpoint.as_slice());
        if blank {
            append_bytes(&mut out, zeros.as_slice());
        } else {
            append_bytes(&mut out, input.sigscript.as_slice());
        }
        assert(tx.inputs@.take(i + 1).drop_last() == tx.inputs@.take(i as int));
        i = i + 1;
    }
    assert(tx.inputs@.take(i as int) == tx.inputs@);
    let len_out = encode_compact_u32(tx.outputs.len() as u32);
    append_bytes(&mut out, len_out.as_slice());
    let mut k: usize = 0;
    while k < tx.outputs.len()
        invariant
            k <= tx.outputs@.len(),
            out@ == compact_len(tx.inputs@.len()) + inputs_bytes(tx.inputs@, blank)
                + compact_len(tx.outputs@.len()) + outputs_bytes(tx.outputs@.take(k as int)),
        decreases tx.outputs@.len() - k,
    {
        let output = tx.outputs[k];
        let value = encode_u128(output.value);
        append_bytes(&mut out, value.as_slice());
        append_bytes(&mut out, output.pubkey.as_slice());
        assert(tx.outputs@.take(k + 1).drop_last() == tx.outputs@.take(k as int));
        k = k + 1;
    }
    assert(tx.outputs@.take(k as int) == tx.outputs@);
    out
}

/// The content hash of `tx`, which identifies it and seeds its output keys.
pub fn content_hash(tx: &Transaction) -> (r: [u8; 32])
    requires
        encodable(*tx),
    ensures
        r@ == content_hash_of(*tx),
{
    let bytes = encode_transaction(tx, false);
    blake2_256(&bytes)
}

/// The message that each input of `tx` must carry a signature of.
pub fn signing_hash(tx: &Transaction) -> (r: [u8; 32])
    requires
        encodable(*tx),
    ensures
        r@ == signing_hash_of(*tx),
{
    let bytes = encode_transaction(tx, true);
    blake2_256(&bytes)
}

/// The key under which the output at `index` of the transaction with content
/// hash `h` is stored.
pub fn derive_output_key(h: &[u8; 32], index: u64) -> (r: OutputKey)
    ensures
        r@ == output_key_of(h@, index as nat),
{
    let mut bytes: Vec<u8> = Vec::new();
    append_bytes(&mut bytes, h.as_slice());
    let idx = encode_u64(index);
    append_bytes(&mut bytes, idx.as_slice());
    blake2_256(&bytes)
}

} // verus!
