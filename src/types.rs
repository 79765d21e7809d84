use vstd::prelude::*;

verus! {

/// A 256-bit hash naming one unspent output.
pub type OutputKey = [u8; 32];

/// A 256-bit sr25519 public key; the owner of an output.
pub type PublicKey = [u8; 32];

/// A 512-bit sr25519 signature.
pub type SignatureBytes = [u8; 64];

/// The amount of value an output carries.
pub type Value = u128;

/// Spends the unspent output named by `outpoint`; `sigscript` authorizes it.
#[derive(Clone, Copy, Debug, PartialEq, Eq)]
pub struct TransactionInput {
    pub outpoint: OutputKey,
    pub sigscript: SignatureBytes,
}

/// Value assigned to the owner of `pubkey`.
#[derive(Clone, Copy, Debug, PartialEq, Eq)]
pub struct TransactionOutput {
    pub value: Value,
    pub pubkey: PublicKey,
}

/// A unit of atomic state change: spends `inputs`, creates `outputs`.
#[derive(Clone, Debug, PartialEq, Eq)]
pub struct Transaction {
    pub inputs: Vec<TransactionInput>,
    pub outputs: Vec<TransactionOutput>,
}

} // verus!
