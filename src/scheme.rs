use crate::types::KeyPair;
use vstd::prelude::*;

verus! {

/// The elliptic-curve blind-signature primitive and key derivation that a
/// mint is run with. The scheme is deterministic: each result is a function
/// of the scheme and the arguments, which the spec functions below name.
pub trait BlindSignatureScheme {
    /// The private key derived for a denomination.
    spec fn secret_key_of(&self, secret: Seq<char>, derivation_path: Seq<char>, amount: u64) -> Seq<u8>;

    /// The public key derived for a denomination.
    spec fn public_key_of(&self, secret: Seq<char>, derivation_path: Seq<char>, amount: u64) -> Seq<u8>;

    /// The keyset id derived from a secret and derivation path.
    spec fn keyset_id_of(&self, secret: Seq<char>, derivation_path: Seq<char>) -> Seq<char>;

    /// The blind signature of a blinded point under a private key.
    spec fn signature_of(&self, secret_key: Seq<u8>, blinded: Seq<u8>) -> Seq<u8>;

    /// Whether an unblinded signature over `secret` is valid under a private key.
    spec fn accepts(&self, secret_key: Seq<u8>, signature: Seq<u8>, secret: Seq<char>) -> bool;

    /// Derives the keypair for one denomination from the mint's secret and
    /// derivation path.
    fn derive_keypair(&self, secret: &str, derivation_path: &str, amount: u64) -> (r: KeyPair)
        ensures
            r.secret_key@ == self.secret_key_of(secret@, derivation_path@, amount),
            r.public_key@ == self.public_key_of(secret@, derivation_path@, amount),
    ;

    /// Derives the keyset id from the mint's secret and derivation path.
    fn derive_keyset_id(&self, secret: &str, derivation_path: &str) -> (r: String)
        ensures
            r@ == self.keyset_id_of(secret@, derivation_path@),
    ;

    /// Signs a blinded point with a private key.
    fn sign(&self, secret_key: &Vec<u8>, blinded: &Vec<u8>) -> (r: Vec<u8>)
        ensures
            r@ == self.signature_of(secret_key@, blinded@),
    ;

    /// Checks an unblinded signature over `secret`; `Err` gives the reason.
    fn verify(&self, secret_key: &Vec<u8>, signature: &Vec<u8>, secret: &str) -> (r: Result<(), String>)
        ensures
            r is Ok <==> self.accepts(secret_key@, signature@, secret@),
    ;
}

} // verus!
