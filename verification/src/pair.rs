//! Unordered entity pairs and occurrence counting over sequences.

use vstd::prelude::*;

verus! {

/// An unordered comparison unit: two distinct entity indices.
/// Equality of the struct itself is positional; order-independent equality
/// is expressed through [`Pair::same_unordered`].
#[derive(Clone, Copy, PartialEq, Eq, Structural, Debug)]
pub struct Pair {
    pub a: usize,
    pub b: usize,
}

impl Pair {
    /// The same pair with its two entities exchanged.
    pub open spec fn flip(self) -> Pair {
        Pair { a: self.b, b: self.a }
    }

    /// Both indices lie below `n` and differ: the pair is a real comparison.
    pub open spec fn valid(self, n: nat) -> bool {
        (self.a as nat) < n && (self.b as nat) < n && self.a != self.b
    }

    /// Order-independent equality.
    pub open spec fn same_unordered(self, other: Pair) -> bool {
        self == other || self == other.flip()
    }

    /// Whether entity `x` is one of the pair's two ends.
    pub open spec fn touches(self, x: usize) -> bool {
        self.a == x || self.b == x
    }

    /// The pair with its smaller index first.
    pub open spec fn norm(self) -> Pair {
        if self.a <= self.b {
            self
        } else {
            self.flip()
        }
    }
}

/// How many positions of `s` hold exactly `x`.
pub open spec fn occ<T>(s: Seq<T>, x: T) -> nat
    decreases s.len(),
{
    if s.len() == 0 {
        0
    } else {
        occ(s.drop_last(), x) + (if s.last() == x {
            1nat
        } else {
            0nat
        })
    }
}

/// Some position of `s` holds a pair equal to `p` in either orientation.
pub open spec fn seq_contains_pair_unordered(s: Seq<Pair>, p: Pair) -> bool {
    exists|k: int| 0 <= k < s.len() && #[trigger] s[k].same_unordered(p)
}

/// No unordered pair occurs twice in `s`.
pub open spec fn pairs_unordered_unique(s: Seq<Pair>) -> bool {
    forall|p: Pair| #[trigger] occ(s, p) + occ(s, p.flip()) <= 1
}

pub proof fn lemma_occ_push<T>(s: Seq<T>, x: T, y: T)
    ensures
        occ(s.push(y), x) == occ(s, x) + (if x == y {
            1nat
        } else {
            0nat
        }),
{
    assert(s.push(y).drop_last() =~= s);
    assert(s.push(y).last() == y);
}

pub proof fn lemma_occ_concat<T>(s1: Seq<T>, s2: Seq<T>, x: T)
    ensures
        occ(s1 + s2, x) == occ(s1, x) + occ(s2, x),
    decreases s2.len(),
{
    if s2.len() == 0 {
        assert(s1 + s2 =~= s1);
    } else {
        lemma_occ_concat(s1, s2.drop_last(), x);
        assert((s1 + s2).drop_last() =~= s1 + s2.drop_last());
        assert((s1 + s2).last() == s2.last());
    }
}

pub proof fn lemma_occ_le_len<T>(s: Seq<T>, x: T)
    ensures
        occ(s, x) <= s.len(),
    decreases s.len(),
{
    if s.len() > 0 {
        lemma_occ_le_len(s.drop_last(), x);
    }
}

/// A positive count yields a witnessing position.
pub proof fn lemma_occ_pos_index<T>(s: Seq<T>, x: T) -> (k: int)
    requires
        occ(s, x) > 0,
    ensures
        0 <= k < s.len(),
        s[k] == x,
    decreases s.len(),
{
    if s.last() == x {
        s.len() - 1
    } else {
        let k = lemma_occ_pos_index(s.drop_last(), x);
        assert(s.drop_last()[k] == s[k]);
        k
    }
}

/// Every position contributes to the count of its value.
pub proof fn lemma_index_occ_pos<T>(s: Seq<T>, k: int)
    requires
        0 <= k < s.len(),
    ensures
        occ(s, s[k]) > 0,
    decreases s.len(),
{
    if k < s.len() - 1 {
        lemma_index_occ_pos(s.drop_last(), k);
        assert(s.drop_last()[k] == s[k]);
    }
}

/// Two distinct positions with the same value push the count to two.
pub proof fn lemma_two_indices_occ_ge2<T>(s: Seq<T>, k1: int, k2: int)
    requires
        0 <= k1 < k2 < s.len(),
        s[k1] == s[k2],
    ensures
        occ(s, s[k1]) >= 2,
    decreases s.len(),
{
    if k2 == s.len() - 1 {
        lemma_index_occ_pos(s.drop_last(), k1);
        assert(s.drop_last()[k1] == s[k1]);
    } else {
        lemma_two_indices_occ_ge2(s.drop_last(), k1, k2);
        assert(s.drop_last()[k1] == s[k1]);
    }
}

/// Unordered membership is exactly a positive count of either orientation.
pub proof fn lemma_contains_unordered_occ(s: Seq<Pair>, p: Pair)
    ensures
        seq_contains_pair_unordered(s, p) <==> occ(s, p) + occ(s, p.flip()) > 0,
{
    if occ(s, p) > 0 {
        let k = lemma_occ_pos_index(s, p);
        assert(s[k].same_unordered(p));
    } else if occ(s, p.flip()) > 0 {
        let k = lemma_occ_pos_index(s, p.flip());
        assert(s[k].same_unordered(p));
    }
    if seq_contains_pair_unordered(s, p) {
        let k = choose|k: int| 0 <= k < s.len() && #[trigger] s[k].same_unordered(p);
        lemma_index_occ_pos(s, k);
        assert(s[k] == p || s[k] == p.flip());
    }
}

/// Unordered membership does not depend on the probe's orientation.
pub proof fn lemma_contains_unordered_flip(s: Seq<Pair>, p: Pair)
    ensures
        seq_contains_pair_unordered(s, p) == seq_contains_pair_unordered(s, p.flip()),
{
    assert(p.flip().flip() == p);
    if seq_contains_pair_unordered(s, p) {
        let k = choose|k: int| 0 <= k < s.len() && #[trigger] s[k].same_unordered(p);
        assert(s[k].same_unordered(p.flip()));
    }
    if seq_contains_pair_unordered(s, p.flip()) {
        let k = choose|k: int| 0 <= k < s.len() && #[trigger] s[k].same_unordered(p.flip());
        assert(s[k].same_unordered(p));
    }
}

/// Unordered membership in a concatenation is membership in either part.
pub proof fn lemma_contains_unordered_concat(s1: Seq<Pair>, s2: Seq<Pair>, p: Pair)
    ensures
        seq_contains_pair_unordered(s1 + s2, p) <==> (seq_contains_pair_unordered(s1, p)
            || seq_contains_pair_unordered(s2, p)),
{
    if seq_contains_pair_unordered(s1 + s2, p) {
        let k = choose|k: int|
            0 <= k < (s1 + s2).len() && #[trigger] (s1 + s2)[k].same_unordered(p);
        if k < s1.len() {
            assert(s1[k].same_unordered(p));
        } else {
            assert(s2[k - s1.len()].same_unordered(p));
        }
    }
    if seq_contains_pair_unordered(s1, p) {
        let k = choose|k: int| 0 <= k < s1.len() && #[trigger] s1[k].same_unordered(p);
        assert((s1 + s2)[k].same_unordered(p));
    }
    if seq_contains_pair_unordered(s2, p) {
        let k = choose|k: int| 0 <= k < s2.len() && #[trigger] s2[k].same_unordered(p);
        assert((s1 + s2)[s1.len() + k].same_unordered(p));
    }
}

/// Uniqueness of unordered pairs transfers between sequences with the same
/// occurrence counts.
pub proof fn lemma_unique_occ_equal(s1: Seq<Pair>, s2: Seq<Pair>)
    requires
        pairs_unordered_unique(s1),
        forall|p: Pair| #[trigger] occ(s2, p) == occ(s1, p),
    ensures
        pairs_unordered_unique(s2),
{
    assert forall|p: Pair| #[trigger] occ(s2, p) + occ(s2, p.flip()) <= 1 by {
        assert(occ(s2, p) == occ(s1, p));
        assert(occ(s2, p.flip()) == occ(s1, p.flip()));
    }
}

/// Pushing a pair seen in neither orientation preserves uniqueness.
pub proof fn lemma_unique_push(s: Seq<Pair>, q: Pair)
    requires
        pairs_unordered_unique(s),
        q.a != q.b,
        occ(s, q) == 0,
        occ(s, q.flip()) == 0,
    ensures
        pairs_unordered_unique(s.push(q)),
{
    assert forall|p: Pair| #[trigger] occ(s.push(q), p) + occ(s.push(q), p.flip()) <= 1 by {
        lemma_occ_push(s, p, q);
        lemma_occ_push(s, p.flip(), q);
        assert(occ(s, p) + occ(s, p.flip()) <= 1);
        if p == q {
            assert(occ(s, p) == 0 && occ(s, p.flip()) == 0);
            assert(p.flip() != q);
        } else if p.flip() == q {
            assert(p == q.flip());
            assert(occ(s, p) == 0 && occ(s, p.flip()) == 0);
        }
    }
}

/// Linear scan for unordered membership of `p` in `v`.
pub fn contains_unordered(v: &Vec<Pair>, p: Pair) -> (r: bool)
    ensures
        r == seq_contains_pair_unordered(v@, p),
{
    let mut k: usize = 0;
    while k < v.len()
        invariant
            k <= v.len(),
            forall|j: int| 0 <= j < k ==> !(#[trigger] v@[j].same_unordered(p)),
        decreases v.len() - k,
    {
        let q = v[k];
        if (q.a == p.a && q.b == p.b) || (q.a == p.b && q.b == p.a) {
            assert(v@[k as int].same_unordered(p));
            return true;
        }
        k += 1;
    }
    false
}

/// Appends the pairs of `y` after those of `x`.
pub fn concat_pairs(x: &Vec<Pair>, y: &Vec<Pair>) -> (r: Vec<Pair>)
    ensures
        r@ == x@ + y@,
{
    let mut r: Vec<Pair> = Vec::new();
    let mut k: usize = 0;
    while k < x.len()
        invariant
            k <= x.len(),
            r@ == x@.subrange(0, k as int),
        decreases x.len() - k,
    {
        r.push(x[k]);
        assert(x@.subrange(0, k + 1int).drop_last() =~= x@.subrange(0, k as int));
        assert(r@ =~= x@.subrange(0, k + 1int));
        k += 1;
    }
    assert(x@.subrange(0, x@.len() as int) =~= x@);
    let mut j: usize = 0;
    while j < y.len()
        invariant
            j <= y.len(),
            r@ == x@ + y@.subrange(0, j as int),
        decreases y.len() - j,
    {
        r.push(y[j]);
        assert(r@ =~= x@ + y@.subrange(0, j + 1int));
        j += 1;
    }
    assert(y@.subrange(0, y@.len() as int) =~= y@);
    r
}

} // verus!
