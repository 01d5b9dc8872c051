use crate::amount::Amount;
use vstd::prelude::*;

verus! {

/// One denomination's signing keys.
#[derive(Clone, Debug, PartialEq, Eq)]
pub struct KeyPair {
    pub amount: u64,
    pub secret_key: Vec<u8>,
    pub public_key: Vec<u8>,
}

/// A wallet's request to have `amount` worth of a token blind-signed.
#[derive(Clone, Debug, PartialEq, Eq)]
pub struct BlindedMessage {
    pub amount: Amount,
    pub b: Vec<u8>,
}

/// The mint's blind signature on a `BlindedMessage`.
#[derive(Clone, Debug, PartialEq, Eq)]
pub struct Promise {
    pub amount: Amount,
    pub c: Vec<u8>,
    pub id: String,
}

/// A redeemable token: the unblinded signature `c` over `secret`.
#[derive(Clone, Debug, PartialEq, Eq)]
pub struct Proof {
    pub amount: Option<Amount>,
    pub secret: String,
    pub c: Option<Vec<u8>>,
    pub id: Option<String>,
    pub script: Option<String>,
}

/// Why the blind-signature check rejected a proof.
#[derive(Clone, Debug, PartialEq, Eq)]
pub enum CryptoError {
    /// The proof carries no signature.
    MissingSignature,
    /// The scheme refused the signature, for the reason it gives.
    Rejected(String),
}

#[derive(Clone, Debug, PartialEq, Eq)]
pub enum Error {
    /// Inputs, outputs and the requested amount do not balance.
    Amount,
    /// The resolved keyset has no key for the denomination.
    AmountKey,
    /// The proof's secret has already been redeemed.
    TokenSpent,
    /// Neither ordering of the outputs reaches the requested amount.
    OutputOrdering,
    /// The signature over the proof's secret did not verify.
    Crypto(CryptoError),
}

pub struct MintRequest {
    pub outputs: Vec<BlindedMessage>,
}

pub struct PostMintResponse {
    pub promises: Vec<Promise>,
}

pub struct SplitRequest {
    pub amount: Amount,
    pub proofs: Vec<Proof>,
    pub outputs: Vec<BlindedMessage>,
}

/// `fst` holds the change, `snd` the promises that make up the requested amount.
pub struct SplitResponse {
    pub fst: Vec<Promise>,
    pub snd: Vec<Promise>,
}

pub struct CheckSpendableRequest {
    pub proofs: Vec<Proof>,
}

/// One entry per proof: `true` when its secret has been redeemed.
pub struct CheckSpendableResponse {
    pub spendable: Vec<bool>,
}

pub struct MeltRequest {
    pub proofs: Vec<Proof>,
    /// The amount of the invoice to be paid, as the payment side reports it.
    pub invoice_amount: Amount,
    pub outputs: Option<Vec<BlindedMessage>>,
}

pub struct MeltResponse {
    pub paid: bool,
    pub preimage: Option<String>,
    pub change: Option<Vec<Promise>>,
}

} // verus!
