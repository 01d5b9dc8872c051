use crate::scheme::BlindSignatureScheme;
use crate::types::KeyPair;
use vstd::arithmetic::power2::{lemma2_to64, lemma_pow2_unfold, pow2};
use vstd::prelude::*;

verus! {

/// An identified collection of signing keypairs, one per denomination.
#[derive(Clone, Debug, PartialEq, Eq)]
pub struct KeySet {
    pub id: String,
    pub keys: Vec<KeyPair>,
}

/// The public half of one denomination's keys.
#[derive(Clone, Debug, PartialEq, Eq)]
pub struct PublicKeyEntry {
    pub amount: u64,
    pub public_key: Vec<u8>,
}

/// A keyset stripped of its private keys, for distribution to wallets.
#[derive(Clone, Debug, PartialEq, Eq)]
pub struct PublicKeySet {
    pub id: String,
    pub keys: Vec<PublicKeyEntry>,
}

/// The ids of every keyset a mint knows.
pub struct KeysetIds {
    pub keysets: Vec<String>,
}

/// Some keypair of `keys` is for denomination `a`.
pub open spec fn has_key(keys: Seq<KeyPair>, a: u64) -> bool {
    exists|i: int| 0 <= i < keys.len() && (#[trigger] keys[i]).amount == a
}

/// `i` is the first position of `keys` whose denomination is `a`.
pub open spec fn is_first_key(keys: Seq<KeyPair>, a: u64, i: int) -> bool {
    &&& 0 <= i < keys.len()
    &&& keys[i].amount == a
    &&& forall|j: int| 0 <= j < i ==> (#[trigger] keys[j]).amount != a
}

/// The keypair a lookup of denomination `a` in `keys` yields: the first.
pub open spec fn key_for(keys: Seq<KeyPair>, a: u64) -> KeyPair {
    keys[choose|i: int| is_first_key(keys, a, i)]
}

/// The first position is the only one.
pub proof fn lemma_first_key_unique(keys: Seq<KeyPair>, a: u64, i: int)
    requires
        is_first_key(keys, a, i),
    ensures
        has_key(keys, a),
        key_for(keys, a) == keys[i],
{
    let k = choose|k: int| is_first_key(keys, a, k);
    if k < i {
        assert(keys[k].amount == a);
    } else if i < k {
        assert(keys[i].amount == a);
    }
}

/// `ks` is the keyset `scheme` derives from `secret` and `derivation_path`
/// with `n` denominations.
pub open spec fn is_derived<S: BlindSignatureScheme>(
    scheme: &S,
    ks: KeySet,
    secret: Seq<char>,
    derivation_path: Seq<char>,
    n: nat,
) -> bool {
    &&& is_generated(ks.keys@, n)
    &&& ks.id@ == scheme.keyset_id_of(secret, derivation_path)
    &&& forall|i: int|
        0 <= i < n ==> (#[trigger] ks.keys@[i]).secret_key@ == scheme.secret_key_of(
            secret,
            derivation_path,
            ks.keys@[i].amount,
        ) && ks.keys@[i].public_key@ == scheme.public_key_of(
            secret,
            derivation_path,
            ks.keys@[i].amount,
        )
}

/// Every key is for the denomination `2^i` at position `i`, for `i < n`.
pub open spec fn is_generated(keys: Seq<KeyPair>, n: nat) -> bool {
    &&& keys.len() == n
    &&& forall|i: int| 0 <= i < n ==> (#[trigger] keys[i]).amount == pow2(i as nat)
}

/// `p` is `k` with the private keys left out.
pub open spec fn is_public_view(p: PublicKeySet, k: KeySet) -> bool {
    &&& p.id@ == k.id@
    &&& p.keys@.len() == k.keys@.len()
    &&& forall|i: int|
        0 <= i < p.keys@.len() ==> (#[trigger] p.keys@[i]).amount == k.keys@[i].amount
            && p.keys@[i].public_key@ == k.keys@[i].public_key@
}

impl KeySet {
    /// Derives the keypairs of denominations `2^0 .. 2^(max_order-1)` and
    /// the keyset id.
    pub fn generate<S: BlindSignatureScheme>(
        scheme: &S,
        secret: &str,
        derivation_path: &str,
        max_order: u8,
    ) -> (r: KeySet)
        requires
            max_order <= 64,
        ensures
            is_derived(scheme, r, secret@, derivation_path@, max_order as nat),
    {
        let mut keys: Vec<KeyPair> = Vec::new();
        let mut i: u8 = 0;
        let mut denomination: u64 = 1;
        proof {
            lemma2_to64();
        }
        while i < max_order
            invariant
                i <= max_order <= 64,
                i < 64 ==> denomination == pow2(i as nat),
                is_generated(keys@, i as nat),
                forall|j: int|
                    0 <= j < i ==> (#[trigger] keys@[j]).secret_key@ == scheme.secret_key_of(
                        secret@,
                        derivation_path@,
                        keys@[j].amount,
                    ) && keys@[j].public_key@ == scheme.public_key_of(
                        secret@,
                        derivation_path@,
                        keys@[j].amount,
                    ),
            decreases max_order - i,
        {
            let mut pair = scheme.derive_keypair(secret, derivation_path, denomination);
            pair.amount = denomination;
            keys.push(pair);
            if i < 63 {
                proof {
                    lemma_pow2_unfold((i + 1) as nat);
                    lemma2_to64();
                    vstd::arithmetic::power2::lemma_pow2_strictly_increases((i + 1) as nat, 64);
                    vstd::arithmetic::power2::lemma2_to64_rest();
                }
                denomination = denomination * 2;
            }
            i = i + 1;
        }
        let id = scheme.derive_keyset_id(secret, derivation_path);
        KeySet { id, keys }
    }

    /// The position of the keypair for denomination `amount`, if any.
    pub fn find_key(&self, amount: u64) -> (r: Option<usize>)
        ensures
            match r {
                Some(i) => is_first_key(self.keys@, amount, i as int),
                None => !has_key(self.keys@, amount),
            },
    {
        let mut i: usize = 0;
        while i < self.keys.len()
            invariant
                i <= self.keys@.len(),
                forall|j: int| 0 <= j < i ==> (#[trigger] self.keys@[j]).amount != amount,
            decreases self.keys@.len() - i,
        {
            if self.keys[i].amount == amount {
                return Some(i);
            }
            i = i + 1;
        }
        None
    }

    /// The keyset without its private keys.
    pub fn public_view(&self) -> (r: PublicKeySet)
        ensures
            is_public_view(r, *self),
    {
        let mut keys: Vec<PublicKeyEntry> = Vec::new();
        let mut i: usize = 0;
        while i < self.keys.len()
            invariant
                i <= self.keys@.len(),
                keys@.len() == i,
                forall|j: int|
                    0 <= j < i ==> (#[trigger] keys@[j]).amount == self.keys@[j].amount
                        && keys@[j].public_key@ == self.keys@[j].public_key@,
            decreases self.keys@.len() - i,
        {
            let public_key = self.keys[i].public_key.clone();
            assert(public_key@ =~= self.keys@[i as int].public_key@);
            keys.push(PublicKeyEntry { amount: self.keys[i].amount, public_key });
            i = i + 1;
        }
        PublicKeySet { id: self.id.clone(), keys }
    }
}

} // verus!
