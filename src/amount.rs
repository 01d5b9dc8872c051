use vstd::arithmetic::power2::{
    lemma2_to64, lemma2_to64_rest, lemma_pow2_strictly_increases, lemma_pow2_unfold, pow2,
};
use vstd::prelude::*;

verus! {

/// A non-negative monetary value in satoshi.
#[derive(Clone, Copy, Debug, PartialEq, Eq, Structural)]
pub struct Amount {
    pub sat: u64,
}

/// The total of a sequence of amounts.
pub open spec fn sum_amounts(s: Seq<Amount>) -> int
    decreases s.len(),
{
    if s.len() == 0 {
        0
    } else {
        sum_amounts(s.drop_last()) + s.last().sat
    }
}

/// A denomination is a power of two that fits in 64 bits.
pub open spec fn is_denomination(x: u64) -> bool {
    exists|k: nat| k < 64 && pow2(k) == x
}

/// `s` is the canonical decomposition of `v`: strictly decreasing powers of
/// two that add up to `v`.
pub open spec fn is_canonical_split(s: Seq<Amount>, v: int) -> bool {
    &&& sum_amounts(s) == v
    &&& forall|i: int| 0 <= i < s.len() ==> is_denomination(#[trigger] s[i].sat)
    &&& forall|i: int, j: int| 0 <= i < j < s.len() ==> s[i].sat > s[j].sat
}

pub proof fn lemma_sum_push(s: Seq<Amount>, a: Amount)
    ensures
        sum_amounts(s.push(a)) == sum_amounts(s) + a.sat,
{
    assert(s.push(a).drop_last() == s);
}

impl Amount {
    pub fn from_sat(sat: u64) -> (r: Amount)
        ensures
            r.sat == sat,
    {
        Amount { sat }
    }

    pub fn to_sat(&self) -> (r: u64)
        ensures
            r == self.sat,
    {
        self.sat
    }

    /// Decomposes the amount into its canonical denominations, largest first.
    pub fn split(&self) -> (r: Vec<Amount>)
        ensures
            is_canonical_split(r@, self.sat as int),
    {
        let mut out: Vec<Amount> = Vec::new();
        let mut rem: u64 = self.sat;
        let mut p: u64 = 0x8000_0000_0000_0000;
        let ghost mut k: nat = 63;
        proof {
            lemma2_to64();
            lemma2_to64_rest();
        }
        while p > 0
            invariant
                k < 64,
                pow2(0) == 1,
                p == 0 ==> rem == 0,
                p > 0 ==> p == pow2(k) && rem < 2 * p,
                sum_amounts(out@) + rem == self.sat,
                forall|i: int| 0 <= i < out@.len() ==> is_denomination(#[trigger] out@[i].sat),
                forall|i: int| 0 <= i < out@.len() ==> #[trigger] out@[i].sat >= 2 * p,
                forall|i: int, j: int| 0 <= i < j < out@.len() ==> out@[i].sat > out@[j].sat,
            decreases p,
        {
            if rem >= p {
                let ghost before = out@;
                proof {
                    lemma_sum_push(before, Amount { sat: p });
                }
                out.push(Amount { sat: p });
                rem = rem - p;
                assert(is_denomination(out@[out@.len() - 1].sat));
            }
            if p == 1 {
                p = 0;
            } else {
                proof {
                    lemma_pow2_unfold(k);
                }
                p = p / 2;
                proof {
                    k = (k - 1) as nat;
                }
            }
        }
        out
    }
}

} // verus!

verus! {

/// `s` in the opposite order.
pub open spec fn reversed<A>(s: Seq<A>) -> Seq<A> {
    Seq::new(s.len(), |i: int| s[s.len() - 1 - i])
}

pub proof fn lemma_sum_concat(a: Seq<Amount>, b: Seq<Amount>)
    ensures
        sum_amounts(a + b) == sum_amounts(a) + sum_amounts(b),
    decreases b.len(),
{
    if b.len() > 0 {
        assert((a + b).drop_last() =~= a + b.drop_last());
        lemma_sum_concat(a, b.drop_last());
    } else {
        assert(a + b =~= a);
    }
}

/// Reordering the amounts back to front keeps their total.
pub proof fn lemma_sum_reversed(s: Seq<Amount>)
    ensures
        sum_amounts(reversed(s)) == sum_amounts(s),
    decreases s.len(),
{
    if s.len() > 0 {
        let rest = s.drop_last();
        lemma_sum_reversed(rest);
        assert(reversed(s) =~= seq![s.last()] + reversed(rest));
        lemma_sum_concat(seq![s.last()], reversed(rest));
        lemma_sum_push(Seq::<Amount>::empty(), s.last());
        assert(seq![s.last()] =~= Seq::<Amount>::empty().push(s.last()));
        assert(sum_amounts(s) == sum_amounts(rest) + s.last().sat);
    } else {
        assert(reversed(s) =~= s);
    }
}

proof fn lemma_sum_first(s: Seq<Amount>)
    requires
        s.len() > 0,
    ensures
        sum_amounts(s) == s[0].sat + sum_amounts(s.drop_first()),
{
    lemma_sum_concat(seq![s[0]], s.drop_first());
    assert(seq![s[0]] + s.drop_first() =~= s);
    lemma_sum_push(Seq::<Amount>::empty(), s[0]);
    assert(seq![s[0]] =~= Seq::<Amount>::empty().push(s[0]));
}

/// Of two distinct denominations, the larger is at least twice the smaller.
proof fn lemma_denomination_gap(a: u64, b: u64)
    requires
        is_denomination(a),
        is_denomination(b),
        a < b,
    ensures
        2 * a <= b,
{
    let ka = choose|k: nat| k < 64 && pow2(k) == a;
    let kb = choose|k: nat| k < 64 && pow2(k) == b;
    if ka >= kb {
        if ka > kb {
            lemma_pow2_strictly_increases(kb, ka);
        }
    } else {
        lemma_pow2_unfold(ka + 1);
        if ka + 1 < kb {
            lemma_pow2_strictly_increases(ka + 1, kb);
        }
    }
}

/// A canonical decomposition totals at least its first entry and less than
/// twice it.
proof fn lemma_canonical_head(s: Seq<Amount>, v: int)
    requires
        is_canonical_split(s, v),
        s.len() > 0,
    ensures
        s[0].sat <= v < 2 * s[0].sat,
    decreases s.len(),
{
    let rest = s.drop_first();
    lemma_sum_first(s);
    assert(is_canonical_split(rest, v - s[0].sat)) by {
        assert forall|i: int| 0 <= i < rest.len() implies is_denomination(#[trigger] rest[i].sat) by {
            assert(rest[i] == s[i + 1]);
        }
    }
    lemma_canonical_nonneg(rest, v - s[0].sat);
    assert(is_denomination(s[0].sat));
    let k = choose|k: nat| k < 64 && pow2(k) == s[0].sat;
    vstd::arithmetic::power2::lemma_pow2_pos(k);
    if rest.len() > 0 {
        lemma_canonical_head(rest, v - s[0].sat);
        assert(is_denomination(s[0].sat));
        assert(is_denomination(s[1].sat));
        assert(rest[0] == s[1]);
        assert(s[0].sat > s[1].sat);
        lemma_denomination_gap(s[1].sat, s[0].sat);
    } else {
        assert(sum_amounts(rest) == 0);
    }
}

proof fn lemma_canonical_nonneg(s: Seq<Amount>, v: int)
    requires
        sum_amounts(s) == v,
    ensures
        v >= 0,
    decreases s.len(),
{
    if s.len() > 0 {
        lemma_canonical_nonneg(s.drop_last(), sum_amounts(s.drop_last()));
    }
}

/// An amount has exactly one canonical decomposition.
pub proof fn lemma_canonical_unique(s: Seq<Amount>, t: Seq<Amount>, v: int)
    requires
        is_canonical_split(s, v),
        is_canonical_split(t, v),
    ensures
        s == t,
    decreases s.len(),
{
    if s.len() == 0 || t.len() == 0 {
        if s.len() > 0 {
            lemma_canonical_head(s, v);
            assert(is_denomination(s[0].sat));
            assert(sum_amounts(t) == 0);
            assert(false);
        }
        if t.len() > 0 {
            lemma_canonical_head(t, v);
            assert(is_denomination(t[0].sat));
            assert(sum_amounts(s) == 0);
            assert(false);
        }
        assert(s =~= t);
    } else {
        lemma_canonical_head(s, v);
        lemma_canonical_head(t, v);
        assert(is_denomination(s[0].sat));
        assert(is_denomination(t[0].sat));
        if s[0].sat < t[0].sat {
            lemma_denomination_gap(s[0].sat, t[0].sat);
        } else if t[0].sat < s[0].sat {
            lemma_denomination_gap(t[0].sat, s[0].sat);
        }
        let w = v - s[0].sat;
        lemma_sum_first(s);
        lemma_sum_first(t);
        let sr = s.drop_first();
        let tr = t.drop_first();
        assert forall|i: int| 0 <= i < sr.len() implies is_denomination(#[trigger] sr[i].sat) by {
            assert(sr[i] == s[i + 1]);
        }
        assert forall|i: int| 0 <= i < tr.len() implies is_denomination(#[trigger] tr[i].sat) by {
            assert(tr[i] == t[i + 1]);
        }
        lemma_canonical_unique(sr, tr, w);
        assert(s =~= seq![s[0]] + sr);
        assert(t =~= seq![t[0]] + tr);
    }
}

} // verus!
