use crate::amount::{
    is_canonical_split, lemma_canonical_unique, lemma_sum_push, lemma_sum_reversed, reversed,
    sum_amounts, Amount,
};
use crate::keyset::{
    has_key, is_derived, is_public_view, key_for, lemma_first_key_unique, KeySet,
    KeysetIds, PublicKeySet,
};
use crate::scheme::BlindSignatureScheme;
use crate::types::{
    BlindedMessage, CheckSpendableRequest, CheckSpendableResponse, CryptoError, Error, KeyPair,
    MintRequest,
    MeltRequest, MeltResponse, PostMintResponse, Promise, Proof, SplitRequest, SplitResponse,
};
use vstd::prelude::*;

verus! {

/// The mint: one active keyset for issuance, older keysets kept for
/// verification, and the registry of redeemed secrets.
pub struct Mint {
    pub active_keyset: KeySet,
    pub inactive_keysets: Vec<KeySet>,
    pub spent_secrets: Vec<String>,
}

/// The total of the proofs' amounts; a proof without an amount adds nothing.
pub open spec fn proofs_total(s: Seq<Proof>) -> int
    decreases s.len(),
{
    if s.len() == 0 {
        0
    } else {
        proofs_total(s.drop_last()) + match s.last().amount {
            Some(a) => a.sat as int,
            None => 0,
        }
    }
}

/// The amounts the messages ask for, in order.
pub open spec fn message_amounts(s: Seq<BlindedMessage>) -> Seq<Amount> {
    s.map_values(|m: BlindedMessage| m.amount)
}

/// The amounts of the promises, in order.
pub open spec fn promise_amounts(s: Seq<Promise>) -> Seq<Amount> {
    s.map_values(|p: Promise| p.amount)
}

/// Every promise carries keyset id `id`.
pub open spec fn all_with_id(s: Seq<Promise>, id: Seq<char>) -> bool {
    forall|i: int| 0 <= i < s.len() ==> (#[trigger] s[i]).id@ == id
}

/// The character sequences of the strings, in order.
pub open spec fn string_views(s: Seq<String>) -> Seq<Seq<char>> {
    s.map_values(|x: String| x@)
}

/// The secrets of the proofs, in order.
pub open spec fn secrets_of(s: Seq<Proof>) -> Seq<Seq<char>> {
    s.map_values(|p: Proof| p.secret@)
}

/// `i` is the first position of `ks` whose keyset id is `id`.
pub open spec fn is_first_keyset(ks: Seq<KeySet>, id: Seq<char>, i: int) -> bool {
    &&& 0 <= i < ks.len()
    &&& ks[i].id@ == id
    &&& forall|j: int| 0 <= j < i ==> (#[trigger] ks[j]).id@ != id
}

pub proof fn lemma_sum_proofs_push(s: Seq<Proof>, p: Proof)
    ensures
        proofs_total(s.push(p)) == proofs_total(s) + match p.amount {
            Some(a) => a.sat as int,
            None => 0,
        },
{
    assert(s.push(p).drop_last() == s);
}

/// The total of the proofs' amounts.
pub fn proofs_amount(proofs: &Vec<Proof>) -> (r: u128)
    ensures
        r == proofs_total(proofs@),
{
    let mut total: u128 = 0;
    let mut i: usize = 0;
    while i < proofs.len()
        invariant
            i <= proofs@.len(),
            total == proofs_total(proofs@.take(i as int)),
            total <= i * 0xffff_ffff_ffff_ffff,
        decreases proofs@.len() - i,
    {
        let ghost prefix = proofs@.take(i as int);
        proof {
            lemma_sum_proofs_push(prefix, proofs@[i as int]);
            assert(proofs@.take(i + 1) =~= prefix.push(proofs@[i as int]));
            assert(i * 0xffff_ffff_ffff_ffff + 0xffff_ffff_ffff_ffff == (i + 1)
                * 0xffff_ffff_ffff_ffff) by (nonlinear_arith);
            assert((i + 1) * 0xffff_ffff_ffff_ffff <= 0x1_0000_0000_0000_0000
                * 0xffff_ffff_ffff_ffff) by (nonlinear_arith)
                requires
                    i < 0x1_0000_0000_0000_0000,
            ;
        }
        match &proofs[i].amount {
            Some(a) => {
                total = total + a.sat as u128;
            },
            None => {},
        }
        i = i + 1;
    }
    assert(proofs@.take(proofs@.len() as int) =~= proofs@);
    total
}

/// The total of the amounts the messages ask for.
pub fn outputs_amount(outputs: &Vec<BlindedMessage>) -> (r: u128)
    ensures
        r == sum_amounts(message_amounts(outputs@)),
{
    let mut total: u128 = 0;
    let mut i: usize = 0;
    while i < outputs.len()
        invariant
            i <= outputs@.len(),
            total == sum_amounts(message_amounts(outputs@.take(i as int))),
            total <= i * 0xffff_ffff_ffff_ffff,
        decreases outputs@.len() - i,
    {
        let ghost prefix = message_amounts(outputs@.take(i as int));
        proof {
            lemma_sum_push(prefix, outputs@[i as int].amount);
            assert(message_amounts(outputs@.take(i + 1)) =~= prefix.push(outputs@[i as int].amount));
            assert(i * 0xffff_ffff_ffff_ffff + 0xffff_ffff_ffff_ffff == (i + 1)
                * 0xffff_ffff_ffff_ffff) by (nonlinear_arith);
            assert((i + 1) * 0xffff_ffff_ffff_ffff <= 0x1_0000_0000_0000_0000
                * 0xffff_ffff_ffff_ffff) by (nonlinear_arith)
                requires
                    i < 0x1_0000_0000_0000_0000,
            ;
        }
        total = total + outputs[i].amount.sat as u128;
        i = i + 1;
    }
    assert(outputs@.take(outputs@.len() as int) =~= outputs@);
    total
}

/// One greedy pass over `amts` in order: an amount joins the target while
/// the target's total stays within `limit`, otherwise it joins the change.
/// Returns (target, change).
pub open spec fn bucket(limit: int, amts: Seq<Amount>) -> (Seq<Amount>, Seq<Amount>)
    decreases amts.len(),
{
    if amts.len() == 0 {
        (Seq::empty(), Seq::empty())
    } else {
        let prev = bucket(limit, amts.drop_last());
        let a = amts.last();
        if sum_amounts(prev.0) + a.sat <= limit {
            (prev.0.push(a), prev.1)
        } else {
            (prev.0, prev.1.push(a))
        }
    }
}

/// The greedy pass of `bucket` over the messages themselves.
pub open spec fn bucket_msgs(limit: int, ms: Seq<BlindedMessage>) -> (
    Seq<BlindedMessage>,
    Seq<BlindedMessage>,
)
    decreases ms.len(),
{
    if ms.len() == 0 {
        (Seq::empty(), Seq::empty())
    } else {
        let prev = bucket_msgs(limit, ms.drop_last());
        let m = ms.last();
        if sum_amounts(message_amounts(prev.0)) + m.amount.sat <= limit {
            (prev.0.push(m), prev.1)
        } else {
            (prev.0, prev.1.push(m))
        }
    }
}

/// The outputs in the order a bucketing pass visits them.
pub open spec fn pass_msgs(outputs: Seq<BlindedMessage>, reverse: bool) -> Seq<BlindedMessage> {
    if reverse {
        reversed(outputs)
    } else {
        outputs
    }
}

/// Bucketing the messages puts their amounts where `bucket` puts them.
pub proof fn lemma_bucket_msgs_amounts(limit: int, ms: Seq<BlindedMessage>)
    ensures
        message_amounts(bucket_msgs(limit, ms).0) == bucket(limit, message_amounts(ms)).0,
        message_amounts(bucket_msgs(limit, ms).1) == bucket(limit, message_amounts(ms)).1,
    decreases ms.len(),
{
    if ms.len() > 0 {
        let prev = bucket_msgs(limit, ms.drop_last());
        lemma_bucket_msgs_amounts(limit, ms.drop_last());
        assert(message_amounts(ms).drop_last() =~= message_amounts(ms.drop_last()));
        assert(message_amounts(prev.0.push(ms.last())) =~= message_amounts(prev.0).push(ms.last().amount));
        assert(message_amounts(prev.1.push(ms.last())) =~= message_amounts(prev.1).push(ms.last().amount));
    } else {
        assert(message_amounts(Seq::<BlindedMessage>::empty()) =~= Seq::<Amount>::empty());
    }
}

/// The outputs' amounts in the order a bucketing pass visits them.
pub open spec fn pass_order(outputs: Seq<BlindedMessage>, reverse: bool) -> Seq<Amount> {
    if reverse {
        reversed(message_amounts(outputs))
    } else {
        message_amounts(outputs)
    }
}

/// A bucketing pass neither creates nor loses value, and the target never
/// exceeds the limit.
pub proof fn lemma_bucket_conserves(limit: int, amts: Seq<Amount>)
    requires
        limit >= 0,
    ensures
        sum_amounts(bucket(limit, amts).0) + sum_amounts(bucket(limit, amts).1) == sum_amounts(amts),
        sum_amounts(bucket(limit, amts).0) <= limit,
    decreases amts.len(),
{
    if amts.len() > 0 {
        let prev = bucket(limit, amts.drop_last());
        lemma_bucket_conserves(limit, amts.drop_last());
        lemma_sum_push(prev.0, amts.last());
        lemma_sum_push(prev.1, amts.last());
    }
}

/// Both orders of the outputs carry the same total.
pub proof fn lemma_pass_order_total(outputs: Seq<BlindedMessage>, reverse: bool)
    ensures
        sum_amounts(pass_order(outputs, reverse)) == sum_amounts(message_amounts(outputs)),
{
    lemma_sum_reversed(message_amounts(outputs));
}

/// No entry of `s` appears twice.
pub open spec fn no_repeats(s: Seq<Seq<char>>) -> bool {
    forall|i: int, j: int| 0 <= i < j < s.len() ==> s[i] != s[j]
}

/// Inputs cover the requested amount, outputs cover it, and inputs equal outputs.
pub open spec fn split_amounts_valid(req: SplitRequest) -> bool {
    let inputs = proofs_total(req.proofs@);
    let outputs = sum_amounts(message_amounts(req.outputs@));
    &&& inputs >= req.amount.sat
    &&& outputs >= req.amount.sat
    &&& inputs == outputs
}

/// No proof is ruled out before the scheme is asked: none is spent, repeats
/// an earlier proof's secret, lacks a key or lacks a signature.
pub open spec fn all_prechecked(m: Mint, proofs: Seq<Proof>) -> bool {
    forall|i: int| 0 <= i < proofs.len() ==> #[trigger] m.precheck_at(proofs, i) is None
}

/// What a melt leaves as change: the proofs' total less what the payment cost.
pub open spec fn melt_change(req: MeltRequest, total_spent: Amount) -> int {
    proofs_total(req.proofs@) - total_spent.sat
}

impl Mint {
    /// How a split with checked proofs ends: `AmountKey` when an output's
    /// amount has no key; otherwise success with the front-to-back buckets if
    /// they reach `amount` exactly, else with the back-to-front ones if those
    /// do, else `OutputOrdering`.
    pub open spec fn split_decided<S: BlindSignatureScheme>(
        &self,
        scheme: &S,
        amount: Amount,
        outputs: Seq<BlindedMessage>,
        r: Result<SplitResponse, Error>,
    ) -> bool {
        let fwd = bucket(amount.sat as int, pass_order(outputs, false));
        let rev = bucket(amount.sat as int, pass_order(outputs, true));
        let fwd_msgs = bucket_msgs(amount.sat as int, pass_msgs(outputs, false));
        let rev_msgs = bucket_msgs(amount.sat as int, pass_msgs(outputs, true));
        &&& !self.all_keyed(outputs) ==> r == Err::<SplitResponse, Error>(Error::AmountKey)
        &&& self.all_keyed(outputs) && sum_amounts(fwd.0) == amount.sat ==> r is Ok
            && promise_amounts(r->Ok_0.snd@) == fwd.0 && promise_amounts(r->Ok_0.fst@) == fwd.1
            && self.are_promises_for(scheme, r->Ok_0.snd@, fwd_msgs.0) && self.are_promises_for(
            scheme,
            r->Ok_0.fst@,
            fwd_msgs.1,
        )
        &&& self.all_keyed(outputs) && sum_amounts(fwd.0) != amount.sat && sum_amounts(rev.0)
            == amount.sat ==> r is Ok && promise_amounts(r->Ok_0.snd@) == rev.0
            && promise_amounts(r->Ok_0.fst@) == rev.1 && self.are_promises_for(
            scheme,
            r->Ok_0.snd@,
            rev_msgs.0,
        ) && self.are_promises_for(scheme, r->Ok_0.fst@, rev_msgs.1)
        &&& self.all_keyed(outputs) && sum_amounts(fwd.0) != amount.sat && sum_amounts(rev.0)
            != amount.sat ==> r == Err::<SplitResponse, Error>(Error::OutputOrdering)
    }

    /// Some proof's secret is already redeemed, or repeats an earlier proof's.
    pub open spec fn spent_or_repeated(&self, proofs: Seq<Proof>) -> bool {
        exists|i: int|
            0 <= i < proofs.len() && (self.is_spent((#[trigger] proofs[i]).secret@) || exists|j: int|
                0 <= j < i && proofs[j].secret@ == proofs[i].secret@)
    }

    /// The active keyset has a key for every denomination in `d`.
    pub open spec fn denominations_keyed(&self, d: Seq<Amount>) -> bool {
        forall|i: int| 0 <= i < d.len() ==> has_key(self.active_keyset.keys@, (#[trigger] d[i]).sat)
    }

    /// `secret` is in the registry of redeemed secrets.
    pub open spec fn is_spent(&self, secret: Seq<char>) -> bool {
        exists|i: int| 0 <= i < self.spent_secrets@.len() && (#[trigger] self.spent_secrets@[i])@ == secret
    }

    /// The registry holds each secret at most once.
    pub open spec fn registry_distinct(&self) -> bool {
        no_repeats(self.spent_view())
    }

    /// The registry of redeemed secrets.
    pub open spec fn spent_view(&self) -> Seq<Seq<char>> {
        string_views(self.spent_secrets@)
    }

    /// The keyset a proof with keyset id `id` is checked against: the active
    /// keyset when the id is absent, is the active one's, or is unknown;
    /// otherwise the first inactive keyset with that id.
    pub open spec fn resolved(&self, id: Option<String>) -> KeySet {
        match id {
            Some(x) => if x@ != self.active_keyset.id@ && exists|i: int|
                is_first_keyset(self.inactive_keysets@, x@, i) {
                self.inactive_keysets@[choose|i: int| is_first_keyset(self.inactive_keysets@, x@, i)]
            } else {
                self.active_keyset
            },
            None => self.active_keyset,
        }
    }

    /// What rules a proof out before its signature is looked at: a redeemed
    /// secret, else a missing key for its amount in the resolved keyset.
    pub open spec fn precheck(&self, p: Proof) -> Option<Error> {
        if self.is_spent(p.secret@) {
            Some(Error::TokenSpent)
        } else {
            match p.amount {
                Some(a) => if has_key(self.resolved(p.id).keys@, a.sat) {
                    None
                } else {
                    Some(Error::AmountKey)
                },
                None => Some(Error::AmountKey),
            }
        }
    }

    /// What the mint itself rules a proof out for, before the scheme is
    /// asked: `precheck`, else a missing signature.
    pub open spec fn local_error(&self, p: Proof) -> Option<Error> {
        match self.precheck(p) {
            Some(e) => Some(e),
            None => if p.c is None {
                Some(Error::Crypto(CryptoError::MissingSignature))
            } else {
                None
            },
        }
    }

    /// What rules out proof `i` of a request before the scheme is asked: a
    /// secret that an earlier proof of the same request carries counts as
    /// spent; otherwise `local_error`.
    pub open spec fn precheck_at(&self, proofs: Seq<Proof>, i: int) -> Option<Error> {
        if exists|j: int| 0 <= j < i && (#[trigger] proofs[j]).secret@ == proofs[i].secret@ {
            Some(Error::TokenSpent)
        } else {
            self.local_error(proofs[i])
        }
    }

    /// The keypair a proof is checked with: the first key for its amount in
    /// the keyset its id resolves to.
    pub open spec fn proof_key(&self, p: Proof) -> KeyPair {
        key_for(self.resolved(p.id).keys@, p.amount->0.sat)
    }

    /// The scheme accepts the proof's signature over its secret under the
    /// proof's key.
    pub open spec fn scheme_accepts<S: BlindSignatureScheme>(&self, scheme: &S, p: Proof) -> bool {
        scheme.accepts(self.proof_key(p).secret_key@, p.c->0@, p.secret@)
    }

    /// Proof `i` of a request checks out: nothing rules it out and the
    /// scheme accepts it.
    pub open spec fn ok_at<S: BlindSignatureScheme>(&self, scheme: &S, proofs: Seq<Proof>, i: int) -> bool {
        self.precheck_at(proofs, i) is None && self.scheme_accepts(scheme, proofs[i])
    }

    /// Every proof of a request checks out.
    pub open spec fn all_ok<S: BlindSignatureScheme>(&self, scheme: &S, proofs: Seq<Proof>) -> bool {
        forall|i: int| 0 <= i < proofs.len() ==> #[trigger] self.ok_at(scheme, proofs, i)
    }

    /// Proof `i` is the first of the request that does not check out, and
    /// `e` is the error it gives: its `precheck_at` error, else the scheme's
    /// rejection.
    pub open spec fn fails_at<S: BlindSignatureScheme>(
        &self,
        scheme: &S,
        proofs: Seq<Proof>,
        i: int,
        e: Error,
    ) -> bool {
        &&& 0 <= i < proofs.len()
        &&& forall|j: int| 0 <= j < i ==> #[trigger] self.ok_at(scheme, proofs, j)
        &&& !self.ok_at(scheme, proofs, i)
        &&& match self.precheck_at(proofs, i) {
            Some(f) => e == f,
            None => e is Crypto && e->Crypto_0 is Rejected,
        }
    }

    /// `p` is the promise for message `m`: its amount, the active keyset's
    /// id, and the scheme's signature of `m.b` under the active key for the
    /// amount.
    pub open spec fn is_promise_for<S: BlindSignatureScheme>(
        &self,
        scheme: &S,
        p: Promise,
        m: BlindedMessage,
    ) -> bool {
        &&& p.amount == m.amount
        &&& p.id@ == self.active_keyset.id@
        &&& p.c@ == scheme.signature_of(
            key_for(self.active_keyset.keys@, m.amount.sat).secret_key@,
            m.b@,
        )
    }

    /// Promise `i` is the promise for message `i`, for every `i`.
    pub open spec fn are_promises_for<S: BlindSignatureScheme>(
        &self,
        scheme: &S,
        ps: Seq<Promise>,
        ms: Seq<BlindedMessage>,
    ) -> bool {
        &&& ps.len() == ms.len()
        &&& forall|i: int| 0 <= i < ps.len() ==> self.is_promise_for(scheme, #[trigger] ps[i], ms[i])
    }

    /// The active keyset has a key for every message's amount.
    pub open spec fn all_keyed(&self, s: Seq<BlindedMessage>) -> bool {
        forall|i: int| 0 <= i < s.len() ==> has_key(self.active_keyset.keys@, (#[trigger] s[i]).amount.sat)
    }

    pub fn new<S: BlindSignatureScheme>(
        scheme: &S,
        secret: &str,
        derivation_path: &str,
        inactive_keysets: Vec<KeySet>,
        spent_secrets: Vec<String>,
        max_order: u8,
    ) -> (r: Mint)
        requires
            max_order <= 64,
        ensures
            is_derived(scheme, r.active_keyset, secret@, derivation_path@, max_order as nat),
            r.inactive_keysets@ == inactive_keysets@,
            r.spent_secrets@ == spent_secrets@,
    {
        Mint {
            active_keyset: KeySet::generate(scheme, secret, derivation_path, max_order),
            inactive_keysets,
            spent_secrets,
        }
    }

    /// The public keys of the active keyset, for distribution to wallets.
    pub fn active_keyset_pubkeys(&self) -> (r: PublicKeySet)
        ensures
            is_public_view(r, self.active_keyset),
    {
        self.active_keyset.public_view()
    }

    /// The ids of all known keysets, active and inactive, each listed once,
    /// the active one first.
    pub fn keysets(&self) -> (r: KeysetIds)
        ensures
            r.keysets@.len() > 0 && r.keysets@[0]@ == self.active_keyset.id@,
            forall|i: int|
                0 <= i < r.keysets@.len() ==> (#[trigger] r.keysets@[i])@ == self.active_keyset.id@
                    || exists|j: int|
                    0 <= j < self.inactive_keysets@.len() && self.inactive_keysets@[j].id@
                        == r.keysets@[i]@,
            forall|j: int|
                0 <= j < self.inactive_keysets@.len() ==> exists|i: int|
                    0 <= i < r.keysets@.len() && r.keysets@[i]@ == (
                    #[trigger] self.inactive_keysets@[j]).id@,
            forall|i: int, j: int|
                0 <= i < j < r.keysets@.len() ==> (#[trigger] r.keysets@[i])@ != (
                #[trigger] r.keysets@[j])@,
    {
        let mut keysets: Vec<String> = Vec::new();
        keysets.push(self.active_keyset.id.clone());
        let mut i: usize = 0;
        while i < self.inactive_keysets.len()
            invariant
                i <= self.inactive_keysets@.len(),
                keysets@.len() > 0 && keysets@[0]@ == self.active_keyset.id@,
                forall|k: int|
                    0 <= k < keysets@.len() ==> (#[trigger] keysets@[k])@ == self.active_keyset.id@
                        || exists|j: int|
                        0 <= j < self.inactive_keysets@.len() && self.inactive_keysets@[j].id@
                            == keysets@[k]@,
                forall|j: int|
                    0 <= j < i ==> exists|k: int|
                        0 <= k < keysets@.len() && keysets@[k]@ == (
                        #[trigger] self.inactive_keysets@[j]).id@,
                forall|k: int, l: int|
                    0 <= k < l < keysets@.len() ==> (#[trigger] keysets@[k])@ != (
                    #[trigger] keysets@[l])@,
            decreases self.inactive_keysets@.len() - i,
        {
            let id = &self.inactive_keysets[i].id;
            let mut seen = false;
            let mut k: usize = 0;
            while k < keysets.len()
                invariant
                    k <= keysets@.len(),
                    seen <==> exists|m: int| 0 <= m < k && (#[trigger] keysets@[m])@ == id@,
                decreases keysets@.len() - k,
            {
                if keysets[k] == *id {
                    seen = true;
                }
                k = k + 1;
            }
            let ghost before = keysets@;
            if !seen {
                keysets.push(id.clone());
                proof {
                    assert(keysets@[before.len() as int]@ == self.inactive_keysets@[i as int].id@);
                    assert forall|j: int| 0 <= j < i + 1 implies exists|k: int|
                        0 <= k < keysets@.len() && keysets@[k]@ == (
                        #[trigger] self.inactive_keysets@[j]).id@ by {
                        if j < i {
                            let k = choose|k: int|
                                0 <= k < before.len() && before[k]@ == self.inactive_keysets@[j].id@;
                            assert(keysets@[k] == before[k]);
                        } else {
                            assert(keysets@[before.len() as int]@ == self.inactive_keysets@[j].id@);
                        }
                    }
                    assert forall|k: int|
                        0 <= k < keysets@.len() implies (#[trigger] keysets@[k])@
                        == self.active_keyset.id@ || exists|j: int|
                        0 <= j < self.inactive_keysets@.len() && self.inactive_keysets@[j].id@
                            == keysets@[k]@ by {
                        if k < before.len() {
                            assert(keysets@[k] == before[k]);
                        }
                    }
                }
            }
            i = i + 1;
        }
        KeysetIds { keysets }
    }

    /// The active keyset, private keys included.
    pub fn active_keyset(&self) -> (r: &KeySet)
        ensures
            *r == self.active_keyset,
    {
        &self.active_keyset
    }

    /// The public keys of the keyset with id `id`, active or inactive.
    pub fn keyset(&self, id: &str) -> (r: Option<PublicKeySet>)
        ensures
            id@ == self.active_keyset.id@ ==> r is Some && is_public_view(r->0, self.active_keyset),
            id@ != self.active_keyset.id@ ==> match r {
                Some(k) => exists|i: int|
                    is_first_keyset(self.inactive_keysets@, id@, i) && is_public_view(
                        k,
                        self.inactive_keysets@[i],
                    ),
                None => !exists|i: int| is_first_keyset(self.inactive_keysets@, id@, i),
            },
    {
        let owned = id.to_owned();
        if self.active_keyset.id == owned {
            return Some(self.active_keyset.public_view());
        }
        match self.find_inactive(&owned) {
            Some(i) => Some(self.inactive_keysets[i].public_view()),
            None => None,
        }
    }

    fn find_inactive(&self, id: &String) -> (r: Option<usize>)
        ensures
            match r {
                Some(i) => is_first_keyset(self.inactive_keysets@, id@, i as int),
                None => !exists|i: int| is_first_keyset(self.inactive_keysets@, id@, i),
            },
    {
        let mut i: usize = 0;
        while i < self.inactive_keysets.len()
            invariant
                i <= self.inactive_keysets@.len(),
                forall|j: int| 0 <= j < i ==> (#[trigger] self.inactive_keysets@[j]).id@ != id@,
            decreases self.inactive_keysets@.len() - i,
        {
            if self.inactive_keysets[i].id == *id {
                return Some(i);
            }
            i = i + 1;
        }
        proof {
            assert forall|k: int| !is_first_keyset(self.inactive_keysets@, id@, k) by {
                if 0 <= k < self.inactive_keysets@.len() {
                    assert(self.inactive_keysets@[k].id@ != id@);
                }
            }
        }
        None
    }

    /// The keyset a proof's id resolves to.
    pub fn resolve_keyset(&self, id: &Option<String>) -> (r: &KeySet)
        ensures
            *r == self.resolved(*id),
    {
        match id {
            Some(x) => {
                if self.active_keyset.id == *x {
                    &self.active_keyset
                } else {
                    match self.find_inactive(x) {
                        Some(i) => {
                            proof {
                                let k = choose|k: int| is_first_keyset(self.inactive_keysets@, x@, k);
                                if k < i {
                                    assert(self.inactive_keysets@[k].id@ == x@);
                                } else if i < k {
                                    assert(self.inactive_keysets@[i as int].id@ == x@);
                                }
                            }
                            &self.inactive_keysets[i]
                        },
                        None => &self.active_keyset,
                    }
                }
            },
            None => &self.active_keyset,
        }
    }

    /// Whether some proof's secret is redeemed or repeats an earlier proof's.
    pub fn any_spent_or_repeated(&self, proofs: &Vec<Proof>) -> (r: bool)
        ensures
            r == self.spent_or_repeated(proofs@),
    {
        let mut i: usize = 0;
        while i < proofs.len()
            invariant
                i <= proofs@.len(),
                forall|k: int|
                    0 <= k < i ==> !(self.is_spent((#[trigger] proofs@[k]).secret@) || exists|j: int|
                        0 <= j < k && proofs@[j].secret@ == proofs@[k].secret@),
            decreases proofs@.len() - i,
        {
            if self.secret_spent(&proofs[i].secret) {
                return true;
            }
            let mut j: usize = 0;
            while j < i
                invariant
                    j <= i < proofs@.len(),
                    forall|k: int| 0 <= k < j ==> (#[trigger] proofs@[k]).secret@ != proofs@[i as int].secret@,
                decreases i - j,
            {
                if proofs[j].secret == proofs[i].secret {
                    return true;
                }
                j = j + 1;
            }
            i = i + 1;
        }
        false
    }

    /// Whether `secret` has been redeemed.
    pub fn secret_spent(&self, secret: &String) -> (r: bool)
        ensures
            r == self.is_spent(secret@),
    {
        let mut i: usize = 0;
        while i < self.spent_secrets.len()
            invariant
                i <= self.spent_secrets@.len(),
                forall|j: int| 0 <= j < i ==> (#[trigger] self.spent_secrets@[j])@ != secret@,
            decreases self.spent_secrets@.len() - i,
        {
            if self.spent_secrets[i] == *secret {
                return true;
            }
            i = i + 1;
        }
        false
    }

    /// Signs one blinded message with the active keyset's key for its amount.
    fn blind_sign<S: BlindSignatureScheme>(&self, scheme: &S, message: &BlindedMessage) -> (r:
        Result<Promise, Error>)
        ensures
            match r {
                Ok(p) => has_key(self.active_keyset.keys@, message.amount.sat)
                    && self.is_promise_for(scheme, p, *message),
                Err(e) => e == Error::AmountKey && !has_key(
                    self.active_keyset.keys@,
                    message.amount.sat,
                ),
            },
    {
        match self.active_keyset.find_key(message.amount.sat) {
            None => Err(Error::AmountKey),
            Some(i) => {
                proof {
                    lemma_first_key_unique(self.active_keyset.keys@, message.amount.sat, i as int);
                }
                let c = scheme.sign(&self.active_keyset.keys[i].secret_key, &message.b);
                Ok(Promise { amount: message.amount, c, id: self.active_keyset.id.clone() })
            },
        }
    }

    /// Blind-signs every output with the active keyset; fails as a whole when
    /// one amount has no key.
    pub fn process_mint_request<S: BlindSignatureScheme>(
        &mut self,
        scheme: &S,
        mint_request: MintRequest,
    ) -> (r: Result<PostMintResponse, Error>)
        ensures
            *final(self) == *old(self),
            old(self).all_keyed(mint_request.outputs@) <==> r is Ok,
            match r {
                Ok(resp) => old(self).are_promises_for(scheme, resp.promises@, mint_request.outputs@)
                    && promise_amounts(resp.promises@) == message_amounts(mint_request.outputs@)
                    && all_with_id(resp.promises@, old(self).active_keyset.id@),
                Err(e) => e == Error::AmountKey,
            },
    {
        let outputs = &mint_request.outputs;
        let mut promises: Vec<Promise> = Vec::new();
        let mut i: usize = 0;
        while i < outputs.len()
            invariant
                i <= outputs@.len(),
                *self == *old(self),
                outputs@ == mint_request.outputs@,
                promise_amounts(promises@) == message_amounts(outputs@.take(i as int)),
                all_with_id(promises@, self.active_keyset.id@),
                self.all_keyed(outputs@.take(i as int)),
                self.are_promises_for(scheme, promises@, outputs@.take(i as int)),
            decreases outputs@.len() - i,
        {
            let ghost before = promises@;
            match self.blind_sign(scheme, &outputs[i]) {
                Ok(p) => {
                    promises.push(p);
                    proof {
                        assert(promise_amounts(promises@) =~= promise_amounts(before).push(p.amount));
                        assert(message_amounts(outputs@.take(i + 1)) =~= message_amounts(
                            outputs@.take(i as int),
                        ).push(outputs@[i as int].amount));
                        assert(outputs@.take(i + 1) =~= outputs@.take(i as int).push(outputs@[i as int]));
                    }
                },
                Err(e) => {
                    let ghost m = outputs@[i as int];
                    assert(!has_key(self.active_keyset.keys@, m.amount.sat));
                    assert(outputs@.contains(m));
                    assert(!self.all_keyed(outputs@));

                    return Err(e);
                },
            }
            i = i + 1;
        }
        assert(outputs@.take(outputs@.len() as int) =~= outputs@);
        Ok(PostMintResponse { promises })
    }

    /// Checks one proof: not redeemed, a key for its amount in the resolved
    /// keyset, a signature present, and accepted by the scheme. Returns its secret; marks nothing.
    pub fn verify_proof<S: BlindSignatureScheme>(&self, scheme: &S, proof: &Proof) -> (r: Result<
        String,
        Error,
    >)
        ensures
            match self.local_error(*proof) {
                Some(e) => r == Err::<String, Error>(e),
                None => (r is Ok <==> self.scheme_accepts(scheme, *proof)) && match r {
                    Ok(s) => s@ == proof.secret@,
                    Err(e) => e is Crypto && e->Crypto_0 is Rejected,
                },
            },
    {
        if self.secret_spent(&proof.secret) {
            return Err(Error::TokenSpent);
        }
        let keyset = self.resolve_keyset(&proof.id);
        let amount = match &proof.amount {
            Some(a) => a.sat,
            None => {
                return Err(Error::AmountKey);
            },
        };
        let index = match keyset.find_key(amount) {
            Some(i) => i,
            None => {
                return Err(Error::AmountKey);
            },
        };
        proof {
            lemma_first_key_unique(keyset.keys@, amount, index as int);
        }
        let signature = match &proof.c {
            Some(c) => c,
            None => {
                return Err(Error::Crypto(CryptoError::MissingSignature));
            },
        };
        match scheme.verify(&keyset.keys[index].secret_key, signature, proof.secret.as_str()) {
            Ok(()) => Ok(proof.secret.clone()),
            Err(reason) => Err(Error::Crypto(CryptoError::Rejected(reason))),
        }
    }

    /// Reports, for each proof, whether its secret has been redeemed. Checks
    /// no signature.
    pub fn check_spendable(&self, check_spendable: &CheckSpendableRequest) -> (r: Result<
        CheckSpendableResponse,
        Error,
    >)
        ensures
            r is Ok,
            r->Ok_0.spendable@.len() == check_spendable.proofs@.len(),
            forall|i: int|
                0 <= i < check_spendable.proofs@.len() ==> (#[trigger] r->Ok_0.spendable@[i])
                    == self.is_spent(check_spendable.proofs@[i].secret@),
    {
        let proofs = &check_spendable.proofs;
        let mut spendable: Vec<bool> = Vec::new();
        let mut i: usize = 0;
        while i < proofs.len()
            invariant
                i <= proofs@.len(),
                spendable@.len() == i,
                forall|j: int|
                    0 <= j < i ==> (#[trigger] spendable@[j]) == self.is_spent(proofs@[j].secret@),
            decreases proofs@.len() - i,
        {
            spendable.push(self.secret_spent(&proofs[i].secret));
            i = i + 1;
        }
        Ok(CheckSpendableResponse { spendable })
    }

    /// One bucketing pass over the outputs, front to back or back to front:
    /// signs each output and puts it into the target while the target's
    /// total stays within `amount`, otherwise into the change.
    fn create_split_response<S: BlindSignatureScheme>(
        &self,
        scheme: &S,
        amount: Amount,
        outputs: &Vec<BlindedMessage>,
        reverse: bool,
    ) -> (r: Result<SplitResponse, Error>)
        ensures
            match r {
                Ok(resp) => self.all_keyed(outputs@) && promise_amounts(resp.snd@) == bucket(
                    amount.sat as int,
                    pass_order(outputs@, reverse),
                ).0 && promise_amounts(resp.fst@) == bucket(
                    amount.sat as int,
                    pass_order(outputs@, reverse),
                ).1 && all_with_id(resp.snd@, self.active_keyset.id@) && all_with_id(
                    resp.fst@,
                    self.active_keyset.id@,
                ) && self.are_promises_for(
                    scheme,
                    resp.snd@,
                    bucket_msgs(amount.sat as int, pass_msgs(outputs@, reverse)).0,
                ) && self.are_promises_for(
                    scheme,
                    resp.fst@,
                    bucket_msgs(amount.sat as int, pass_msgs(outputs@, reverse)).1,
                ),
                Err(e) => e == Error::AmountKey && !self.all_keyed(outputs@),
            },
    {
        let ghost order = pass_order(outputs@, reverse);
        let ghost morder = pass_msgs(outputs@, reverse);
        assert(order =~= message_amounts(morder));
        let n = outputs.len();
        let mut target_total: u64 = 0;
        let mut target: Vec<Promise> = Vec::new();
        let mut change: Vec<Promise> = Vec::new();
        let mut i: usize = 0;
        while i < n
            invariant
                n == outputs@.len(),
                order == pass_order(outputs@, reverse),
                morder == pass_msgs(outputs@, reverse),
                order == message_amounts(morder),
                i <= n,
                self.are_promises_for(
                    scheme,
                    target@,
                    bucket_msgs(amount.sat as int, morder.take(i as int)).0,
                ),
                self.are_promises_for(
                    scheme,
                    change@,
                    bucket_msgs(amount.sat as int, morder.take(i as int)).1,
                ),
                promise_amounts(target@) == bucket(amount.sat as int, order.take(i as int)).0,
                promise_amounts(change@) == bucket(amount.sat as int, order.take(i as int)).1,
                target_total == sum_amounts(promise_amounts(target@)),
                target_total <= amount.sat,
                all_with_id(target@, self.active_keyset.id@),
                all_with_id(change@, self.active_keyset.id@),
                forall|j: int|
                    0 <= j < i ==> has_key(
                        self.active_keyset.keys@,
                        (#[trigger] order[j]).sat,
                    ),
            decreases n - i,
        {
            let index = if reverse {
                n - 1 - i
            } else {
                i
            };
            assert(order[i as int] == outputs@[index as int].amount);
            assert(morder[i as int] == outputs@[index as int]);
            let signed = match self.blind_sign(scheme, &outputs[index]) {
                Ok(p) => p,
                Err(e) => {
                    assert(outputs@.contains(outputs@[index as int]));
                    return Err(e);
                },
            };
            let ghost prev_t = promise_amounts(target@);
            let ghost prev_c = promise_amounts(change@);
            assert(order.take(i + 1).drop_last() =~= order.take(i as int));
            assert(order.take(i + 1).last() == order[i as int]);
            assert(morder.take(i + 1).drop_last() =~= morder.take(i as int));
            assert(morder.take(i + 1).last() == morder[i as int]);
            proof {
                lemma_bucket_msgs_amounts(amount.sat as int, morder.take(i as int));
                assert(message_amounts(morder.take(i as int)) =~= order.take(i as int));
            }
            let ghost prev_tm = bucket_msgs(amount.sat as int, morder.take(i as int)).0;
            let ghost prev_cm = bucket_msgs(amount.sat as int, morder.take(i as int)).1;
            if target_total as u128 + signed.amount.sat as u128 <= amount.sat as u128 {
                proof {
                    lemma_sum_push(prev_t, signed.amount);
                }
                target_total = target_total + signed.amount.sat;
                target.push(signed);
                assert(promise_amounts(target@) =~= prev_t.push(signed.amount));
            } else {
                change.push(signed);
                assert(promise_amounts(change@) =~= prev_c.push(signed.amount));
            }
            i = i + 1;
        }
        proof {
            assert(morder.take(n as int) =~= morder);
            assert(order.take(n as int) =~= order);
            assert forall|k: int| 0 <= k < n implies has_key(
                self.active_keyset.keys@,
                (#[trigger] outputs@[k]).amount.sat,
            ) by {
                let j = if reverse {
                    n - 1 - k
                } else {
                    k
                };
                assert(order[j] == outputs@[k].amount);
            }
        }
        Ok(SplitResponse { fst: change, snd: target })
    }

    /// Checks every proof in order, marking nothing; stops at the first
    /// failure. A secret repeated within the request counts as spent.
    /// Returns the proofs' secrets.
    pub fn verify_proofs<S: BlindSignatureScheme>(&self, scheme: &S, proofs: &Vec<Proof>) -> (r:
        Result<Vec<String>, Error>)
        ensures
            match r {
                Ok(v) => string_views(v@) == secrets_of(proofs@) && self.all_ok(scheme, proofs@)
                    && all_prechecked(*self, proofs@),
                Err(e) => exists|i: int| self.fails_at(scheme, proofs@, i, e),
            },
            r is Ok <==> self.all_ok(scheme, proofs@),
            proofs@.len() == 0 ==> r is Ok,
            proofs@.len() > 0 && self.precheck_at(proofs@, 0) is Some ==> r == Err::<
                Vec<String>,
                Error,
            >(self.precheck_at(proofs@, 0)->0),
    {
        let mut secrets: Vec<String> = Vec::new();
        let mut i: usize = 0;
        while i < proofs.len()
            invariant
                i <= proofs@.len(),
                string_views(secrets@) == secrets_of(proofs@.take(i as int)),
                forall|j: int| 0 <= j < i ==> #[trigger] self.ok_at(scheme, proofs@, j),
                i > 0 ==> self.precheck_at(proofs@, 0) is None,
            decreases proofs@.len() - i,
        {
            let mut j: usize = 0;
            while j < i
                invariant
                    j <= i < proofs@.len(),
                    forall|k: int| 0 <= k < i ==> #[trigger] self.ok_at(scheme, proofs@, k),
                    i > 0 ==> self.precheck_at(proofs@, 0) is None,
                    string_views(secrets@) == secrets_of(proofs@.take(i as int)),
                    forall|k: int| 0 <= k < j ==> (#[trigger] proofs@[k]).secret@ != proofs@[i as int].secret@,
                decreases i - j,
            {
                if proofs[j].secret == proofs[i].secret {
                    assert(self.precheck_at(proofs@, i as int) == Some(Error::TokenSpent));
                    assert(self.fails_at(scheme, proofs@, i as int, Error::TokenSpent));
                    return Err(Error::TokenSpent);
                }
                j = j + 1;
            }
            assert(self.precheck_at(proofs@, i as int) == self.local_error(proofs@[i as int]));
            let ghost prev = secrets@;
            match self.verify_proof(scheme, &proofs[i]) {
                Ok(s) => {
                    secrets.push(s);
                    assert(secrets@ == prev.push(s));
                    assert(proofs@.take(i + 1) =~= proofs@.take(i as int).push(proofs@[i as int]));
                    assert(s@ == proofs@[i as int].secret@);
                    assert(string_views(prev.push(s)) =~= string_views(prev).push(s@));
                    assert(secrets_of(proofs@.take(i as int).push(proofs@[i as int])) =~= secrets_of(
                        proofs@.take(i as int),
                    ).push(proofs@[i as int].secret@));
                },
                Err(e) => {
                    assert(self.fails_at(scheme, proofs@, i as int, e));
                    return Err(e);
                },
            }
            i = i + 1;
        }
        assert(proofs@.take(proofs@.len() as int) =~= proofs@);
        assert forall|k: int| 0 <= k < proofs@.len() implies #[trigger] self.precheck_at(proofs@, k)
            is None by {
            assert(self.ok_at(scheme, proofs@, k));
        }
        Ok(secrets)
    }

    /// Finishes a split whose proofs have been checked: buckets the outputs
    /// front to back, and back to front when that misses `amount`; on an
    /// exact match marks `secrets` spent.
    pub fn complete_split<S: BlindSignatureScheme>(
        &mut self,
        scheme: &S,
        amount: Amount,
        outputs: &Vec<BlindedMessage>,
        secrets: Vec<String>,
    ) -> (r: Result<SplitResponse, Error>)
        ensures
            old(self).split_decided(scheme, amount, outputs@, r),
            match r {
                Ok(resp) => {
                    &&& sum_amounts(promise_amounts(resp.snd@)) == amount.sat
                    &&& sum_amounts(promise_amounts(resp.snd@)) + sum_amounts(
                        promise_amounts(resp.fst@),
                    ) == sum_amounts(message_amounts(outputs@))
                    &&& all_with_id(resp.snd@, old(self).active_keyset.id@)
                    &&& all_with_id(resp.fst@, old(self).active_keyset.id@)
                    &&& final(self).spent_view() == old(self).spent_view() + string_views(secrets@)
                    &&& final(self).active_keyset == old(self).active_keyset
                    &&& final(self).inactive_keysets == old(self).inactive_keysets
                },
                Err(_) => *final(self) == *old(self),
            },
    {
        let mut response = self.create_split_response(scheme, amount, outputs, false);
        let hit = match &response {
            Ok(resp) => {
                proof {
                    lemma_bucket_conserves(amount.sat as int, pass_order(outputs@, false));
                    lemma_pass_order_total(outputs@, false);
                }
                self.target_amount(resp) == amount.sat
            },
            Err(_) => false,
        };
        if !hit && response.is_ok() {
            response = self.create_split_response(scheme, amount, outputs, true);
            proof {
                lemma_bucket_conserves(amount.sat as int, pass_order(outputs@, true));
                lemma_pass_order_total(outputs@, true);
            }
            let hit_reversed = match &response {
                Ok(resp) => self.target_amount(resp) == amount.sat,
                Err(_) => false,
            };
            if !hit_reversed {
                return Err(Error::OutputOrdering);
            }
        }
        let resp = match response {
            Ok(resp) => resp,
            Err(e) => {
                return Err(e);
            },
        };
        let ghost old_spent = self.spent_view();
        let mut i: usize = 0;
        while i < secrets.len()
            invariant
                i <= secrets@.len(),
                self.spent_view() == old_spent + string_views(secrets@.take(i as int)),
                self.active_keyset == old(self).active_keyset,
                self.inactive_keysets == old(self).inactive_keysets,
            decreases secrets@.len() - i,
        {
            let ghost prev = self.spent_secrets@;
            let s = secrets[i].clone();
            self.spent_secrets.push(s);
            assert(self.spent_secrets@ == prev.push(s));
            assert(secrets@.take(i + 1) =~= secrets@.take(i as int).push(secrets@[i as int]));
            assert(s@ == secrets@[i as int]@);
            assert(string_views(prev.push(s)) =~= string_views(prev).push(s@));
            assert(string_views(secrets@.take(i as int).push(secrets@[i as int])) =~= string_views(
                secrets@.take(i as int),
            ).push(secrets@[i as int]@));
            assert(self.spent_view() =~= old_spent + string_views(secrets@.take(i + 1)));
            i = i + 1;
        }
        assert(secrets@.take(secrets@.len() as int) =~= secrets@);
        Ok(resp)
    }

    /// The total of a split response's target promises.
    fn target_amount(&self, resp: &SplitResponse) -> (r: u64)
        requires
            sum_amounts(promise_amounts(resp.snd@)) <= u64::MAX,
        ensures
            r == sum_amounts(promise_amounts(resp.snd@)),
    {
        let mut total: u64 = 0;
        let mut i: usize = 0;
        while i < resp.snd.len()
            invariant
                i <= resp.snd@.len(),
                total == sum_amounts(promise_amounts(resp.snd@.take(i as int))),
                sum_amounts(promise_amounts(resp.snd@)) <= u64::MAX,
            decreases resp.snd@.len() - i,
        {
            let ghost prev = promise_amounts(resp.snd@.take(i as int));
            proof {
                lemma_sum_push(prev, resp.snd@[i as int].amount);
                assert(promise_amounts(resp.snd@.take(i + 1)) =~= prev.push(resp.snd@[i as int].amount));
                lemma_prefix_sum_le(promise_amounts(resp.snd@), i + 1);
                assert(promise_amounts(resp.snd@).take(i + 1) =~= promise_amounts(resp.snd@.take(i + 1)));
            }
            total = total + resp.snd[i].amount.sat;
            i = i + 1;
        }
        assert(resp.snd@.take(resp.snd@.len() as int) =~= resp.snd@);
        total
    }

    /// Exchanges proofs for new promises of the same total, split into the
    /// requested amount (`snd`) and change (`fst`). All-or-nothing: the
    /// proofs are marked spent only on success.
    pub fn process_split_request<S: BlindSignatureScheme>(
        &mut self,
        scheme: &S,
        split_request: SplitRequest,
    ) -> (r: Result<SplitResponse, Error>)
        ensures
            !split_amounts_valid(split_request) ==> r == Err::<SplitResponse, Error>(Error::Amount),
            split_amounts_valid(split_request) && !old(self).all_ok(scheme, split_request.proofs@)
                ==> r is Err && exists|i: int|
                old(self).fails_at(scheme, split_request.proofs@, i, r->Err_0),
            split_amounts_valid(split_request) && split_request.proofs@.len() > 0 && old(
                self,
            ).precheck_at(split_request.proofs@, 0) is Some ==> r == Err::<SplitResponse, Error>(
                old(self).precheck_at(split_request.proofs@, 0)->0,
            ),
            split_amounts_valid(split_request) && old(self).all_ok(scheme, split_request.proofs@)
                ==> old(self).split_decided(scheme, split_request.amount, split_request.outputs@, r),
            match r {
                Ok(resp) => {
                    &&& split_amounts_valid(split_request)
                    &&& old(self).registry_distinct() ==> final(self).registry_distinct()
                    &&& old(self).all_ok(scheme, split_request.proofs@)
                    &&& all_prechecked(*old(self), split_request.proofs@)
                    &&& sum_amounts(promise_amounts(resp.snd@)) == split_request.amount.sat
                    &&& sum_amounts(promise_amounts(resp.snd@)) + sum_amounts(
                        promise_amounts(resp.fst@),
                    ) == proofs_total(split_request.proofs@)
                    &&& proofs_total(split_request.proofs@) == sum_amounts(
                        message_amounts(split_request.outputs@),
                    )
                    &&& all_with_id(resp.snd@, old(self).active_keyset.id@)
                    &&& all_with_id(resp.fst@, old(self).active_keyset.id@)
                    &&& final(self).spent_view() == old(self).spent_view() + secrets_of(
                        split_request.proofs@,
                    )
                    &&& final(self).active_keyset == old(self).active_keyset
                    &&& final(self).inactive_keysets == old(self).inactive_keysets
                },
                Err(_) => *final(self) == *old(self),
            },
    {
        let proofs_total = proofs_amount(&split_request.proofs);
        let amount = split_request.amount.sat as u128;
        if proofs_total < amount {
            return Err(Error::Amount);
        }
        let output_total = outputs_amount(&split_request.outputs);
        if output_total < amount {
            return Err(Error::Amount);
        }
        if proofs_total != output_total {
            return Err(Error::Amount);
        }
        let secrets = match self.verify_proofs(scheme, &split_request.proofs) {
            Ok(v) => v,
            Err(e) => {
                let ghost i = choose|i: int| self.fails_at(scheme, split_request.proofs@, i, e);
                let r: Result<SplitResponse, Error> = Err(e);
                assert(old(self).fails_at(scheme, split_request.proofs@, i, r->Err_0));
                return r;
            },
        };
        proof {
            if self.registry_distinct() {
                assert forall|i: int| 0 <= i < split_request.proofs@.len() implies !self.is_spent(
                    (#[trigger] split_request.proofs@[i]).secret@,
                ) && forall|j: int|
                    0 <= j < i ==> split_request.proofs@[j].secret@
                        != split_request.proofs@[i].secret@ by {
                    assert(self.ok_at(scheme, split_request.proofs@, i));
                }
                lemma_append_distinct(*self, split_request.proofs@);
            }
        }
        self.complete_split(scheme, split_request.amount, &split_request.outputs, secrets)
    }

    /// First phase of a melt: the proofs cover the invoice and each one
    /// checks out. Marks nothing.
    pub fn verify_melt_request<S: BlindSignatureScheme>(
        &mut self,
        scheme: &S,
        melt_request: &MeltRequest,
    ) -> (r: Result<(), Error>)
        ensures
            *final(self) == *old(self),
            (r == Err::<(), Error>(Error::Amount)) <==> proofs_total(melt_request.proofs@)
                < melt_request.invoice_amount.sat,
            proofs_total(melt_request.proofs@) >= melt_request.invoice_amount.sat ==> (r is Ok
                <==> old(self).all_ok(scheme, melt_request.proofs@)),
            proofs_total(melt_request.proofs@) >= melt_request.invoice_amount.sat && r is Err
                ==> exists|i: int| old(self).fails_at(scheme, melt_request.proofs@, i, r->Err_0),
            proofs_total(melt_request.proofs@) >= melt_request.invoice_amount.sat
                && melt_request.proofs@.len() > 0 && old(self).precheck_at(melt_request.proofs@, 0)
                is Some ==> r == Err::<(), Error>(old(self).precheck_at(melt_request.proofs@, 0)->0),
            r is Ok ==> all_prechecked(*old(self), melt_request.proofs@),
    {
        let proofs_total = proofs_amount(&melt_request.proofs);
        if proofs_total < melt_request.invoice_amount.sat as u128 {
            return Err(Error::Amount);
        }
        match self.verify_proofs(scheme, &melt_request.proofs) {
            Ok(_) => Ok(()),
            Err(e) => {
                let ghost i = choose|i: int| self.fails_at(scheme, melt_request.proofs@, i, e);
                assert(old(self).fails_at(scheme, melt_request.proofs@, i, e));
                assert(e != Error::Amount);
                let r: Result<(), Error> = Err(e);
                assert(old(self).fails_at(scheme, melt_request.proofs@, i, r->Err_0));
                r
            },
        }
    }

    /// Second phase of a melt, after the invoice was paid at a cost of
    /// `total_spent`: returns the remainder as change in canonical
    /// denominations, each signed over the caller's output at the same
    /// position, and marks the proofs spent.
    pub fn process_melt_request<S: BlindSignatureScheme>(
        &mut self,
        scheme: &S,
        melt_request: &MeltRequest,
        preimage: &str,
        total_spent: Amount,
    ) -> (r: Result<MeltResponse, Error>)
        ensures
            old(self).spent_or_repeated(melt_request.proofs@) ==> r == Err::<MeltResponse, Error>(
                Error::TokenSpent,
            ),
            !old(self).spent_or_repeated(melt_request.proofs@) ==> ({
                let change = melt_change(*melt_request, total_spent);
                &&& change < 0 || change > u64::MAX ==> r == Err::<MeltResponse, Error>(
                    Error::Amount,
                )
                &&& 0 <= change <= u64::MAX && melt_request.outputs is None ==> r is Ok
                &&& 0 <= change <= u64::MAX && melt_request.outputs is Some ==> forall|
                    d: Seq<Amount>,
                |
                    #[trigger] is_canonical_split(d, change) ==> {
                        let n = melt_request.outputs->0@.len();
                        &&& n < d.len() ==> r == Err::<MeltResponse, Error>(Error::Amount)
                        &&& n >= d.len() && !old(self).denominations_keyed(d) ==> r == Err::<
                            MeltResponse,
                            Error,
                        >(Error::AmountKey)
                        &&& n >= d.len() && old(self).denominations_keyed(d) ==> r is Ok
                    }
            }),
            match r {
                Ok(resp) => {
                    &&& resp.paid
                    &&& resp.preimage is Some && resp.preimage->0@ == preimage@
                    &&& resp.change is Some
                    &&& melt_request.outputs is None ==> resp.change->0@.len() == 0
                    &&& melt_request.outputs is Some ==> is_canonical_split(
                        promise_amounts(resp.change->0@),
                        melt_change(*melt_request, total_spent),
                    ) && all_with_id(resp.change->0@, old(self).active_keyset.id@)
                        && resp.change->0@.len() <= melt_request.outputs->0@.len()
                        && forall|i: int|
                        0 <= i < resp.change->0@.len() ==> (#[trigger] resp.change->0@[i]).c@
                            == scheme.signature_of(
                            key_for(
                                old(self).active_keyset.keys@,
                                resp.change->0@[i].amount.sat,
                            ).secret_key@,
                            melt_request.outputs->0@[i].b@,
                        )
                    &&& !old(self).spent_or_repeated(melt_request.proofs@)
                    &&& old(self).registry_distinct() ==> final(self).registry_distinct()
                    &&& final(self).spent_view() == old(self).spent_view() + secrets_of(
                        melt_request.proofs@,
                    )
                    &&& final(self).active_keyset == old(self).active_keyset
                    &&& final(self).inactive_keysets == old(self).inactive_keysets
                },
                Err(_) => *final(self) == *old(self),
            },
    {
        if self.any_spent_or_repeated(&melt_request.proofs) {
            return Err(Error::TokenSpent);
        }
        let proofs_total = proofs_amount(&melt_request.proofs);
        if total_spent.sat as u128 > proofs_total {
            return Err(Error::Amount);
        }
        let remainder = proofs_total - total_spent.sat as u128;
        if remainder > u64::MAX as u128 {
            return Err(Error::Amount);
        }
        let change_target = Amount { sat: remainder as u64 };
        let amounts = change_target.split();
        let ghost change_int = melt_change(*melt_request, total_spent);
        proof {
            assert forall|d: Seq<Amount>| #[trigger] is_canonical_split(d, change_int) implies d
                == amounts@ by {
                lemma_canonical_unique(d, amounts@, change_int);
            }
        }
        let mut change: Vec<Promise> = Vec::new();
        match &melt_request.outputs {
            Some(outputs) => {
                if outputs.len() < amounts.len() {
                    return Err(Error::Amount);
                }
                let mut i: usize = 0;
                while i < amounts.len()
                    invariant
                        i <= amounts@.len() <= outputs@.len(),
                        *self == *old(self),
                        melt_request.outputs == Some(*outputs),
                        0 <= melt_change(*melt_request, total_spent) <= u64::MAX,
                        is_canonical_split(amounts@, melt_change(*melt_request, total_spent)),
                        change_int == melt_change(*melt_request, total_spent),
                        forall|d: Seq<Amount>| #[trigger]
                            is_canonical_split(d, change_int) ==> d == amounts@,
                        self.denominations_keyed(amounts@.take(i as int)),
                        !self.spent_or_repeated(melt_request.proofs@),
                        forall|j: int|
                            0 <= j < i ==> (#[trigger] change@[j]).c@ == scheme.signature_of(
                                key_for(self.active_keyset.keys@, change@[j].amount.sat).secret_key@,
                                outputs@[j].b@,
                            ),
                        promise_amounts(change@) == amounts@.take(i as int),
                        all_with_id(change@, self.active_keyset.id@),
                    decreases amounts@.len() - i,
                {
                    let message = BlindedMessage { amount: amounts[i], b: outputs[i].b.clone() };
                    assert(message.b@ =~= outputs@[i as int].b@);
                    let ghost prev = change@;
                    match self.blind_sign(scheme, &message) {
                        Ok(p) => {
                            change.push(p);
                            assert(promise_amounts(change@) =~= promise_amounts(prev).push(p.amount));
                            assert(amounts@.take(i + 1) =~= amounts@.take(i as int).push(amounts@[i as int]));
                            assert(has_key(self.active_keyset.keys@, amounts@[i as int].sat));
                        },
                        Err(e) => {
                            assert(!has_key(self.active_keyset.keys@, amounts@[i as int].sat));
                            assert(!self.denominations_keyed(amounts@));
                            return Err(e);
                        },
                    }
                    i = i + 1;
                }
                assert(amounts@.take(amounts@.len() as int) =~= amounts@);
            },
            None => {},
        }
        let ghost old_spent = self.spent_view();
        let proofs = &melt_request.proofs;
        let mut k: usize = 0;
        while k < proofs.len()
            invariant
                k <= proofs@.len(),
                self.spent_view() == old_spent + secrets_of(proofs@.take(k as int)),
                self.active_keyset == old(self).active_keyset,
                self.inactive_keysets == old(self).inactive_keysets,
            decreases proofs@.len() - k,
        {
            let ghost prev = self.spent_secrets@;
            let s = proofs[k].secret.clone();
            self.spent_secrets.push(s);
            assert(self.spent_secrets@ == prev.push(s));
            assert(string_views(prev.push(s)) =~= string_views(prev).push(s@));
            assert(proofs@.take(k + 1) =~= proofs@.take(k as int).push(proofs@[k as int]));
            assert(secrets_of(proofs@.take(k as int).push(proofs@[k as int])) =~= secrets_of(
                proofs@.take(k as int),
            ).push(proofs@[k as int].secret@));
            k = k + 1;
        }
        assert(proofs@.take(proofs@.len() as int) =~= proofs@);
        proof {
            if old(self).registry_distinct() {
                lemma_append_distinct(*old(self), melt_request.proofs@);
            }
        }
        Ok(MeltResponse { paid: true, preimage: Some(preimage.to_owned()), change: Some(change) })
    }
}

/// A prefix of amounts never totals more than the whole.
proof fn lemma_prefix_sum_le(s: Seq<Amount>, k: int)
    requires
        0 <= k <= s.len(),
    ensures
        sum_amounts(s.take(k)) <= sum_amounts(s),
    decreases s.len(),
{
    if k < s.len() {
        assert(s.drop_last().take(k) =~= s.take(k));
        lemma_prefix_sum_le(s.drop_last(), k);
    } else {
        assert(s.take(k) =~= s);
    }
}

/// Appending new, pairwise distinct secrets to a registry without repeats
/// leaves it without repeats.
proof fn lemma_append_distinct(m: Mint, proofs: Seq<Proof>)
    requires
        m.registry_distinct(),
        forall|i: int|
            0 <= i < proofs.len() ==> !m.is_spent((#[trigger] proofs[i]).secret@) && forall|j: int|
                0 <= j < i ==> proofs[j].secret@ != proofs[i].secret@,
    ensures
        no_repeats(m.spent_view() + secrets_of(proofs)),
{
    let a = m.spent_view();
    let b = secrets_of(proofs);
    let c = a + b;
    assert forall|i: int, j: int| 0 <= i < j < c.len() implies c[i] != c[j] by {
        if j >= a.len() {
            let jj = j - a.len();
            assert(c[j] == proofs[jj].secret@);
            if i >= a.len() {
                assert(c[i] == proofs[i - a.len()].secret@);
            } else {
                assert(c[i] == m.spent_secrets@[i]@);
                if c[i] == c[j] {
                    assert(m.is_spent(proofs[jj].secret@));
                }
            }
        }
    }
}

/// After a request has consumed some proofs, each of their secrets is
/// reported spent, and a proof carrying any of them is ruled out as already
/// spent.
pub proof fn lemma_redeemed_secret_blocks_reuse(
    before: Mint,
    after: Mint,
    consumed: Seq<Proof>,
    reused: Proof,
)
    requires
        after.spent_view() == before.spent_view() + secrets_of(consumed),
        exists|i: int| 0 <= i < consumed.len() && (#[trigger] consumed[i]).secret@ == reused.secret@,
    ensures
        after.is_spent(reused.secret@),
        after.precheck(reused) == Some(Error::TokenSpent),
{
    let i = choose|i: int| 0 <= i < consumed.len() && (#[trigger] consumed[i]).secret@ == reused.secret@;
    let k = before.spent_view().len() + i;
    assert(after.spent_view()[k] == secrets_of(consumed)[i]);
    assert(after.spent_view().len() == after.spent_secrets@.len());
    assert(0 <= k < after.spent_secrets@.len());
    assert(after.spent_view()[k] == after.spent_secrets@[k]@);
    assert(after.spent_secrets@[k]@ == reused.secret@);
    assert(after.is_spent(reused.secret@));
}

/// Two requests that share a secret cannot both succeed: once the first has
/// consumed its proofs, the second fails the check that success requires.
pub proof fn lemma_no_double_spend(before: Mint, after: Mint, first: Seq<Proof>, second: Seq<Proof>)
    requires
        after.spent_view() == before.spent_view() + secrets_of(first),
        exists|i: int, j: int|
            0 <= i < first.len() && 0 <= j < second.len() && (#[trigger] first[i]).secret@ == (
            #[trigger] second[j]).secret@,
    ensures
        !all_prechecked(after, second),
{
    let (i, j) = choose|i: int, j: int|
        0 <= i < first.len() && 0 <= j < second.len() && (#[trigger] first[i]).secret@ == (
        #[trigger] second[j]).secret@;
    lemma_redeemed_secret_blocks_reuse(before, after, first, second[j]);
    assert(after.precheck_at(second, j) is Some);
}

} // verus!
