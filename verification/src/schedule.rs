//! The adaptive comparison scheduler: the spanning question list, skip
//! replacement, and the remaining-question bookkeeping of the adaptive phase.

use vstd::prelude::*;
use crate::pair::{
    Pair, occ, seq_contains_pair_unordered, pairs_unordered_unique, contains_unordered,
    concat_pairs, lemma_occ_push, lemma_occ_concat, lemma_occ_pos_index, lemma_index_occ_pos,
    lemma_two_indices_occ_ge2, lemma_unique_push, lemma_unique_occ_equal,
    lemma_contains_unordered_flip, lemma_contains_unordered_occ,
};
use crate::graph::{
    connected, spans, all_pairs_valid, lemma_connected_sym,
    lemma_connected_trans, lemma_chain_connects, lemma_occ_equal_included, lemma_spans_included,
    lemma_valid_occ_equal, lemma_valid_concat, lemma_connected_bound, component_of,
    lemma_replacement_preserves_span, lemma_drop_connected_edge, lemma_included_prefix,
    spec_link_count, lemma_link_count_flip, link_count,
};
use crate::randomness::shuffle;
use crate::system::Observation;

verus! {

/// Builds the spanning question list: consecutive entries of a shuffled
/// entity order are chained into `n - 1` pairs, and the pair list itself is
/// shuffled so that asking order is decoupled from entity order. Before any
/// skip, this list alone connects all `n` entities.
pub fn gen_min_questions(n: usize) -> (pairs: Vec<Pair>)
    requires
        n >= 1,
    ensures
        pairs@.len() == n - 1,
        all_pairs_valid(pairs@, n as nat),
        pairs_unordered_unique(pairs@),
        spans(pairs@, n as nat),
{
    let mut player_list: Vec<usize> = Vec::new();
    let mut i: usize = 0;
    while i < n
        invariant
            i <= n,
            player_list@.len() == i,
            forall|v: usize|
                occ(player_list@, v) == (if (v as int) < i {
                    1nat
                } else {
                    0nat
                }),
        decreases n - i,
    {
        let ghost pre = player_list@;
        player_list.push(i);
        proof {
            assert forall|v: usize|
                occ(player_list@, v) == (if (v as int) < i + 1 {
                    1nat
                } else {
                    0nat
                }) by {
                lemma_occ_push(pre, v, i);
            }
        }
        i += 1;
    }
    shuffle(&mut player_list);
    let ghost order = player_list@;
    proof {
        assert forall|v: usize|
            occ(order, v) == (if (v as int) < n {
                1nat
            } else {
                0nat
            }) by {}
        assert forall|k: int| 0 <= k < n implies (order[k] as int) < n by {
            lemma_index_occ_pos(order, k);
            assert(occ(order, order[k]) > 0);
        }
        assert forall|k1: int, k2: int|
            0 <= k1 < k2 < n implies order[k1] != order[k2] by {
            if order[k1] == order[k2] {
                lemma_two_indices_occ_ge2(order, k1, k2);
                assert(occ(order, order[k1]) >= 2);
            }
        }
    }
    let mut pairs: Vec<Pair> = Vec::new();
    let mut j: usize = 0;
    while j + 1 < n
        invariant
            1 <= n,
            j + 1 <= n,
            player_list@ == order,
            order.len() == n,
            forall|k: int| 0 <= k < n ==> (order[k] as int) < n,
            forall|k1: int, k2: int| 0 <= k1 < k2 < n ==> order[k1] != order[k2],
            pairs@.len() == j,
            forall|m: int|
                0 <= m < j ==> (#[trigger] pairs@[m]) == (Pair {
                    a: order[m],
                    b: order[m + 1],
                }),
            all_pairs_valid(pairs@, n as nat),
            pairs_unordered_unique(pairs@),
        decreases n - j,
    {
        let p = Pair { a: player_list[j], b: player_list[j + 1] };
        let ghost pre = pairs@;
        proof {
            assert(order[j as int] != order[j as int + 1]);
            if occ(pre, p) > 0 {
                let m = lemma_occ_pos_index(pre, p);
                assert(pre[m] == (Pair { a: order[m], b: order[m + 1] }));
                assert(order[m] == order[j as int]);
                assert(false);
            }
            if occ(pre, p.flip()) > 0 {
                let m = lemma_occ_pos_index(pre, p.flip());
                assert(pre[m] == (Pair { a: order[m], b: order[m + 1] }));
                assert(order[m] == order[j as int + 1]);
                assert(false);
            }
            lemma_unique_push(pre, p);
        }
        pairs.push(p);
        j += 1;
    }
    let ghost chain = pairs@;
    proof {
        assert(chain.len() == n - 1);
        assert forall|x: usize, y: usize|
            (x as nat) < n as nat && (y as nat) < n as nat implies connected(chain, x, y) by {
            assert(occ(order, x) == 1nat);
            assert(occ(order, y) == 1nat);
            let kx = lemma_occ_pos_index(order, x);
            let ky = lemma_occ_pos_index(order, y);
            lemma_chain_connects(chain, order, kx);
            lemma_chain_connects(chain, order, ky);
            lemma_connected_sym(chain, order[0], x);
            lemma_connected_trans(chain, x, order[0], y);
        }
        assert(spans(chain, n as nat));
    }
    shuffle(&mut pairs);
    proof {
        lemma_unique_occ_equal(chain, pairs@);
        lemma_valid_occ_equal(chain, pairs@, n as nat);
        lemma_occ_equal_included(chain, pairs@);
        lemma_spans_included(chain, pairs@, n as nat);
    }
    pairs
}

/// An unordered pair over `n` entities that has been neither answered nor
/// skipped: still askable.
pub open spec fn is_remaining(answered: Seq<Pair>, skipped: Seq<Pair>, n: nat, q: Pair) -> bool {
    q.valid(n) && !seq_contains_pair_unordered(answered, q) && !seq_contains_pair_unordered(
        skipped,
        q,
    )
}

/// Lists every askable pair once, smaller index first.
pub(crate) fn remaining_pairs(n: usize, answered: &Vec<Pair>, skipped: &Vec<Pair>) -> (r: Vec<
    Pair,
>)
    ensures
        forall|k: int|
            0 <= k < r@.len() ==> is_remaining(answered@, skipped@, n as nat, #[trigger] r@[k])
                && r@[k].a < r@[k].b,
        forall|q: Pair|
            #[trigger] is_remaining(answered@, skipped@, n as nat, q)
                ==> seq_contains_pair_unordered(r@, q),
{
    let mut r: Vec<Pair> = Vec::new();
    let mut p1: usize = 0;
    while p1 < n
        invariant
            p1 <= n,
            forall|k: int|
                0 <= k < r@.len() ==> is_remaining(answered@, skipped@, n as nat, #[trigger] r@[k])
                    && r@[k].a < r@[k].b,
            forall|q: Pair|
                #[trigger] is_remaining(answered@, skipped@, n as nat, q) && (q.norm().a as int)
                    < p1 ==> seq_contains_pair_unordered(r@, q),
        decreases n - p1,
    {
        let mut p2: usize = p1 + 1;
        while p2 < n
            invariant
                p1 < n,
                p1 + 1 <= p2 <= n,
                forall|k: int|
                    0 <= k < r@.len() ==> is_remaining(
                        answered@,
                        skipped@,
                        n as nat,
                        #[trigger] r@[k],
                    ) && r@[k].a < r@[k].b,
                forall|q: Pair|
                    #[trigger] is_remaining(answered@, skipped@, n as nat, q) && (q.norm().a as int)
                        < p1 ==> seq_contains_pair_unordered(r@, q),
                forall|q: Pair|
                    #[trigger] is_remaining(answered@, skipped@, n as nat, q) && q.norm().a == p1
                        && (q.norm().b as int) < p2 ==> seq_contains_pair_unordered(r@, q),
            decreases n - p2,
        {
            let cand = Pair { a: p1, b: p2 };
            let ghost pre = r@;
            let hit_answered = contains_unordered(answered, cand);
            let hit_skipped = contains_unordered(skipped, cand);
            if !hit_answered && !hit_skipped {
                r.push(cand);
                proof {
                    assert forall|q: Pair|
                        seq_contains_pair_unordered(pre, q) implies seq_contains_pair_unordered(
                        r@,
                        q,
                    ) by {
                        let k = choose|k: int|
                            0 <= k < pre.len() && #[trigger] pre[k].same_unordered(q);
                        assert(r@[k].same_unordered(q));
                    }
                    assert(r@[pre.len() as int] == cand);
                }
            }
            proof {
                assert forall|q: Pair|
                    #[trigger] is_remaining(answered@, skipped@, n as nat, q) && q.norm()
                        == cand implies seq_contains_pair_unordered(r@, q) by {
                    assert(q == cand || q == cand.flip());
                    lemma_contains_unordered_flip(answered@, q);
                    lemma_contains_unordered_flip(skipped@, q);
                    assert(!seq_contains_pair_unordered(answered@, cand));
                    assert(!seq_contains_pair_unordered(skipped@, cand));
                    assert(r@[pre.len() as int] == cand);
                    assert(r@[pre.len() as int].same_unordered(q));
                }
            }
            p2 += 1;
        }
        proof {
            assert forall|q: Pair|
                #[trigger] is_remaining(answered@, skipped@, n as nat, q) && (q.norm().a as int) < p1
                    + 1 implies seq_contains_pair_unordered(r@, q) by {
                if q.norm().a == p1 {
                    assert((q.norm().b as int) < n);
                }
            }
        }
        p1 += 1;
    }
    proof {
        assert forall|q: Pair|
            #[trigger] is_remaining(answered@, skipped@, n as nat, q) implies
            seq_contains_pair_unordered(r@, q) by {
            assert((q.norm().a as int) < n);
        }
    }
    r
}

/// A pair that can replace the just-skipped `pair` while keeping the graph
/// spanning: its ends reachable through the still-live pairs from the skipped
/// pair's respective ends, not itself skipped, and not already scheduled or
/// answered.
pub open spec fn is_replacement_candidate(
    edges: Seq<Pair>,
    skipped: Seq<Pair>,
    pair: Pair,
    q: Pair,
) -> bool {
    &&& q.a != q.b
    &&& connected(edges, pair.a, q.a)
    &&& connected(edges, pair.b, q.b)
    &&& !seq_contains_pair_unordered(skipped, q)
    &&& !seq_contains_pair_unordered(edges, q)
}

/// Searches for a replacement after `pair` was skipped: the two groups of
/// entities reachable from its ends through `upcoming` and `answered` are
/// computed, and a cross pair that is not already skipped is chosen uniformly
/// at random. `None` means no such pair is left: the graph cannot be repaired.
pub fn replace_skipped_pair(
    upcoming: &Vec<Pair>,
    skipped: &Vec<Pair>,
    answered: &Vec<Pair>,
    pair: Pair,
    n: usize,
) -> (r: Option<Pair>)
    requires
        pair.valid(n as nat),
        all_pairs_valid(upcoming@, n as nat),
        all_pairs_valid(answered@, n as nat),
    ensures
        (match r {
            Some(q) => q.valid(n as nat) && is_replacement_candidate(
                upcoming@ + answered@,
                skipped@,
                pair,
                q,
            ),
            None => forall|q: Pair|
                !is_replacement_candidate(upcoming@ + answered@, skipped@, pair, q),
        }),
{
    let all_edges = concat_pairs(upcoming, answered);
    proof {
        lemma_valid_concat(upcoming@, answered@, n as nat);
    }
    let left = component_of(n, &all_edges, pair.a);
    let right = component_of(n, &all_edges, pair.b);
    let ghost edges = all_edges@;
    let mut cands: Vec<Pair> = Vec::new();
    let mut l: usize = 0;
    while l < n
        invariant
            l <= n,
            pair.valid(n as nat),
            all_pairs_valid(edges, n as nat),
            edges == upcoming@ + answered@,
            all_edges@ == edges,
            left@.len() == n,
            right@.len() == n,
            forall|i: usize| i < n ==> left@[i as int] == connected(edges, pair.a, i),
            forall|i: usize| i < n ==> right@[i as int] == connected(edges, pair.b, i),
            forall|k: int|
                0 <= k < cands@.len() ==> (#[trigger] cands@[k]).valid(n as nat)
                    && is_replacement_candidate(edges, skipped@, pair, cands@[k]),
            cands@.len() == 0 ==> forall|q: Pair|
                #[trigger] is_replacement_candidate(edges, skipped@, pair, q) ==> (q.a as int) >= l,
        decreases n - l,
    {
        let mut m: usize = 0;
        while m < n
            invariant
                l < n,
                m <= n,
                pair.valid(n as nat),
                all_pairs_valid(edges, n as nat),
                edges == upcoming@ + answered@,
                all_edges@ == edges,
                left@.len() == n,
                right@.len() == n,
                forall|i: usize| i < n ==> left@[i as int] == connected(edges, pair.a, i),
                forall|i: usize| i < n ==> right@[i as int] == connected(edges, pair.b, i),
                forall|k: int|
                    0 <= k < cands@.len() ==> (#[trigger] cands@[k]).valid(n as nat)
                        && is_replacement_candidate(edges, skipped@, pair, cands@[k]),
                cands@.len() == 0 ==> forall|q: Pair|
                    #[trigger] is_replacement_candidate(edges, skipped@, pair, q) ==> (q.a as int)
                        > l || (q.a == l && (q.b as int) >= m),
            decreases n - m,
        {
            if left[l] && right[m] && l != m {
                let q = Pair { a: l, b: m };
                if !contains_unordered(skipped, q) && !contains_unordered(&all_edges, q) {
                    cands.push(q);
                    proof {
                        assert(is_replacement_candidate(edges, skipped@, pair, q));
                    }
                }
            }
            proof {
                if cands@.len() == 0 {
                    assert forall|q: Pair|
                        #[trigger] is_replacement_candidate(edges, skipped@, pair, q) implies (
                    q.a as int) > l || (q.a == l && (q.b as int) > m) by {
                        if q.a == l && q.b == m {
                            assert(left@[l as int]);
                            assert(right@[m as int]);
                            assert(false);
                        }
                    }
                }
            }
            m += 1;
        }
        proof {
            if cands@.len() == 0 {
                assert forall|q: Pair|
                    #[trigger] is_replacement_candidate(edges, skipped@, pair, q) implies (
                q.a as int) >= l + 1 by {
                    if q.a == l {
                        lemma_connected_bound(edges, n as nat, pair.b, q.b);
                        assert((q.b as int) < n);
                    }
                }
            }
        }
        l += 1;
    }
    if cands.len() == 0 {
        proof {
            assert forall|q: Pair|
                !is_replacement_candidate(edges, skipped@, pair, q) by {
                if is_replacement_candidate(edges, skipped@, pair, q) {
                    lemma_connected_bound(edges, n as nat, pair.a, q.a);
                    assert((q.a as int) < n);
                }
            }
        }
        return None;
    }
    let d: usize = rand::random();
    let idx = d % cands.len();
    Some(cands[idx])
}

/// What the response collaborator answered for one proposed comparison.
#[derive(Clone, Copy, PartialEq, Eq, Debug)]
pub enum Response<V> {
    /// A finite positive ratio: the first entity is that many times better.
    Value(V),
    /// The comparison was declined.
    Skip,
    /// The collaborator wants to stop.
    Quit,
}

/// Why a ranking session cannot continue to a solvable system.
#[derive(Clone, Copy, PartialEq, Eq, Structural, Debug)]
pub enum ScheduleError {
    /// A skip left no valid replacement pair: the comparison graph fragmented
    /// beyond repair.
    ScheduleExhausted,
    /// A quit during the spanning phase: the spanning guarantee is unmet and
    /// no meaningful result exists.
    AbortedBySpanningQuit,
}

/// Where a ranking session stands.
#[derive(Clone, Copy, PartialEq, Eq, Structural, Debug)]
pub enum Phase {
    /// Working through the spanning question list.
    Spanning,
    /// Filling in further questions by lowest connection count.
    Adaptive,
    /// Scheduling ended normally; the observations support a solvable system.
    Done,
    /// Scheduling ended fatally.
    Failed,
}

/// What the scheduler asks of its driver next.
#[derive(Clone, Copy, PartialEq, Eq, Structural, Debug)]
pub enum Step {
    /// Obtain a response for this pair and submit it.
    Ask(Pair),
    /// Scheduling is over.
    Finished,
}

/// The observation list mirrors the answered pair list position by position.
pub open spec fn obs_match<V>(obs: Seq<Observation<V>>, answered: Seq<Pair>) -> bool {
    &&& obs.len() == answered.len()
    &&& forall|k: int|
        0 <= k < obs.len() ==> (#[trigger] obs[k]).i == answered[k].a && obs[k].j == answered[k].b
}

proof fn lemma_occ_three(s1: Seq<Pair>, s2: Seq<Pair>, s3: Seq<Pair>, x: Pair)
    ensures
        occ(s1 + s2 + s3, x) == occ(s1, x) + occ(s2, x) + occ(s3, x),
{
    lemma_occ_concat(s1 + s2, s3, x);
    lemma_occ_concat(s1, s2, x);
}

proof fn lemma_occ_four(s1: Seq<Pair>, s2: Seq<Pair>, s3: Seq<Pair>, s4: Seq<Pair>, x: Pair)
    ensures
        occ(s1 + s2 + s3 + s4, x) == occ(s1, x) + occ(s2, x) + occ(s3, x) + occ(s4, x),
{
    lemma_occ_concat(s1 + s2 + s3, s4, x);
    lemma_occ_three(s1, s2, s3, x);
}

proof fn lemma_occ_singleton(p: Pair, x: Pair)
    ensures
        occ(seq![p], x) == (if x == p {
            1nat
        } else {
            0nat
        }),
{
    lemma_occ_push(Seq::<Pair>::empty(), x, p);
    assert(occ(Seq::<Pair>::empty(), x) == 0);
    assert(seq![p] =~= Seq::<Pair>::empty().push(p));
}

/// Taking the last queued pair up as the current question moves no pair in or
/// out of the session: validity, uniqueness and the spanning guarantee carry
/// over.
proof fn lemma_pop_to_current(ans: Seq<Pair>, skp: Seq<Pair>, up: Seq<Pair>, n: nat)
    requires
        up.len() > 0,
        all_pairs_valid(ans + skp + up + Seq::<Pair>::empty(), n),
        pairs_unordered_unique(ans + skp + up + Seq::<Pair>::empty()),
        spans(up + ans + Seq::<Pair>::empty(), n),
    ensures
        all_pairs_valid(ans + skp + up.drop_last() + seq![up.last()], n),
        pairs_unordered_unique(ans + skp + up.drop_last() + seq![up.last()]),
        spans(up.drop_last() + ans + seq![up.last()], n),
{
    let p = up.last();
    assert forall|x: Pair|
        #[trigger] occ(up + ans + Seq::<Pair>::empty(), x) == occ(
            up.drop_last() + ans + seq![p],
            x,
        ) by {
        lemma_occ_three(up, ans, Seq::<Pair>::empty(), x);
        lemma_occ_three(up.drop_last(), ans, seq![p], x);
        lemma_occ_singleton(p, x);
        assert(occ(Seq::<Pair>::empty(), x) == 0);
        assert(occ(up, x) == occ(up.drop_last(), x) + (if up.last() == x {
            1nat
        } else {
            0nat
        }));
    }
    lemma_occ_equal_included(up + ans + Seq::<Pair>::empty(), up.drop_last() + ans + seq![p]);
    lemma_spans_included(up + ans + Seq::<Pair>::empty(), up.drop_last() + ans + seq![p], n);
    assert forall|x: Pair|
        #[trigger] occ(ans + skp + up + Seq::<Pair>::empty(), x) == occ(
            ans + skp + up.drop_last() + seq![p],
            x,
        ) by {
        lemma_occ_four(ans, skp, up, Seq::<Pair>::empty(), x);
        lemma_occ_four(ans, skp, up.drop_last(), seq![p], x);
        lemma_occ_singleton(p, x);
        assert(occ(Seq::<Pair>::empty(), x) == 0);
        assert(occ(up, x) == occ(up.drop_last(), x) + (if up.last() == x {
            1nat
        } else {
            0nat
        }));
    }
    lemma_unique_occ_equal(
        ans + skp + up + Seq::<Pair>::empty(),
        ans + skp + up.drop_last() + seq![p],
    );
    lemma_valid_occ_equal(
        ans + skp + up + Seq::<Pair>::empty(),
        ans + skp + up.drop_last() + seq![p],
        n,
    );
}

/// Making a fresh pair the current question keeps validity and uniqueness of
/// the session's touched pairs.
proof fn lemma_extend_session(ans: Seq<Pair>, skp: Seq<Pair>, up: Seq<Pair>, best: Pair, n: nat)
    requires
        all_pairs_valid(ans + skp + up + Seq::<Pair>::empty(), n),
        pairs_unordered_unique(ans + skp + up + Seq::<Pair>::empty()),
        best.valid(n),
        !seq_contains_pair_unordered(ans, best),
        !seq_contains_pair_unordered(skp, best),
        !seq_contains_pair_unordered(up, best),
    ensures
        all_pairs_valid(ans + skp + up + seq![best], n),
        pairs_unordered_unique(ans + skp + up + seq![best]),
{
    let old_all = ans + skp + up + Seq::<Pair>::empty();
    lemma_contains_unordered_occ(ans, best);
    lemma_contains_unordered_occ(skp, best);
    lemma_contains_unordered_occ(up, best);
    lemma_occ_four(ans, skp, up, Seq::<Pair>::empty(), best);
    lemma_occ_four(ans, skp, up, Seq::<Pair>::empty(), best.flip());
    assert(occ(Seq::<Pair>::empty(), best) == 0);
    assert(occ(Seq::<Pair>::empty(), best.flip()) == 0);
    lemma_unique_push(old_all, best);
    lemma_valid_push(old_all, best, n);
    assert forall|x: Pair|
        #[trigger] occ(old_all.push(best), x) == occ(ans + skp + up + seq![best], x) by {
        lemma_occ_push(old_all, x, best);
        lemma_occ_four(ans, skp, up, seq![best], x);
        lemma_occ_four(ans, skp, up, Seq::<Pair>::empty(), x);
        lemma_occ_singleton(best, x);
        assert(occ(Seq::<Pair>::empty(), x) == 0);
    }
    lemma_unique_occ_equal(old_all.push(best), ans + skp + up + seq![best]);
    lemma_valid_occ_equal(old_all.push(best), ans + skp + up + seq![best], n);
}

/// A lower bound over a representative list of the askable pairs is a lower
/// bound over every askable pair.
proof fn lemma_min_over_remaining(
    ans: Seq<Pair>,
    skp: Seq<Pair>,
    n: nat,
    rem: Seq<Pair>,
    links: int,
)
    requires
        forall|q: Pair|
            #[trigger] is_remaining(ans, skp, n, q) ==> seq_contains_pair_unordered(rem, q),
        forall|m: int| 0 <= m < rem.len() ==> links <= spec_link_count(ans, #[trigger] rem[m]),
    ensures
        forall|q: Pair| #[trigger] is_remaining(ans, skp, n, q) ==> links <= spec_link_count(ans, q),
{
    assert forall|q: Pair|
        #[trigger] is_remaining(ans, skp, n, q) implies links <= spec_link_count(ans, q) by {
        assert(seq_contains_pair_unordered(rem, q));
        let m = choose|m: int| 0 <= m < rem.len() && #[trigger] rem[m].same_unordered(q);
        assert(links <= spec_link_count(ans, rem[m]));
        if rem[m] != q {
            assert(rem[m] == q.flip());
            lemma_link_count_flip(ans, q);
        }
    }
}

/// Shuffling the list of askable pairs keeps it a representative list.
proof fn lemma_remaining_shuffled(
    ans: Seq<Pair>,
    skp: Seq<Pair>,
    n: nat,
    pre: Seq<Pair>,
    post: Seq<Pair>,
)
    requires
        forall|x: Pair| #[trigger] occ(post, x) == occ(pre, x),
        forall|k: int| 0 <= k < pre.len() ==> is_remaining(ans, skp, n, #[trigger] pre[k]),
        forall|q: Pair|
            #[trigger] is_remaining(ans, skp, n, q) ==> seq_contains_pair_unordered(pre, q),
    ensures
        forall|k: int| 0 <= k < post.len() ==> is_remaining(ans, skp, n, #[trigger] post[k]),
        forall|q: Pair|
            #[trigger] is_remaining(ans, skp, n, q) ==> seq_contains_pair_unordered(post, q),
{
    assert forall|k: int|
        0 <= k < post.len() implies is_remaining(ans, skp, n, #[trigger] post[k]) by {
        lemma_index_occ_pos(post, k);
        assert(occ(pre, post[k]) > 0);
        let m = lemma_occ_pos_index(pre, post[k]);
    }
    assert forall|q: Pair|
        #[trigger] is_remaining(ans, skp, n, q) implies seq_contains_pair_unordered(post, q) by {
        assert(seq_contains_pair_unordered(pre, q));
        let k = choose|k: int| 0 <= k < pre.len() && #[trigger] pre[k].same_unordered(q);
        lemma_index_occ_pos(pre, k);
        assert(occ(post, pre[k]) > 0);
        let m = lemma_occ_pos_index(post, pre[k]);
        assert(pre[k].flip().flip() == pre[k]);
        assert(post[m].same_unordered(q));
    }
}

/// Answering the current question moves it into the answered list: validity
/// and uniqueness of the session's touched pairs carry over.
proof fn lemma_answer_moves_current(ans: Seq<Pair>, skp: Seq<Pair>, up: Seq<Pair>, p: Pair, n: nat)
    requires
        all_pairs_valid(ans + skp + up + seq![p], n),
        pairs_unordered_unique(ans + skp + up + seq![p]),
    ensures
        all_pairs_valid(ans.push(p) + skp + up + Seq::<Pair>::empty(), n),
        pairs_unordered_unique(ans.push(p) + skp + up + Seq::<Pair>::empty()),
{
    assert forall|x: Pair|
        #[trigger] occ(ans + skp + up + seq![p], x) == occ(
            ans.push(p) + skp + up + Seq::<Pair>::empty(),
            x,
        ) by {
        lemma_occ_four(ans, skp, up, seq![p], x);
        lemma_occ_four(ans.push(p), skp, up, Seq::<Pair>::empty(), x);
        lemma_occ_push(ans, x, p);
        lemma_occ_singleton(p, x);
        assert(occ(Seq::<Pair>::empty(), x) == 0);
    }
    lemma_unique_occ_equal(ans + skp + up + seq![p], ans.push(p) + skp + up + Seq::<Pair>::empty());
    lemma_valid_occ_equal(
        ans + skp + up + seq![p],
        ans.push(p) + skp + up + Seq::<Pair>::empty(),
        n,
    );
}

/// Skipping the current question moves it into the skipped list: validity and
/// uniqueness of the session's touched pairs carry over.
proof fn lemma_skip_moves_current(ans: Seq<Pair>, skp: Seq<Pair>, up: Seq<Pair>, p: Pair, n: nat)
    requires
        all_pairs_valid(ans + skp + up + seq![p], n),
        pairs_unordered_unique(ans + skp + up + seq![p]),
    ensures
        all_pairs_valid(ans + skp.push(p) + up + Seq::<Pair>::empty(), n),
        pairs_unordered_unique(ans + skp.push(p) + up + Seq::<Pair>::empty()),
{
    assert forall|x: Pair|
        #[trigger] occ(ans + skp + up + seq![p], x) == occ(
            ans + skp.push(p) + up + Seq::<Pair>::empty(),
            x,
        ) by {
        lemma_occ_four(ans, skp, up, seq![p], x);
        lemma_occ_four(ans, skp.push(p), up, Seq::<Pair>::empty(), x);
        lemma_occ_push(skp, x, p);
        lemma_occ_singleton(p, x);
        assert(occ(Seq::<Pair>::empty(), x) == 0);
    }
    lemma_unique_occ_equal(ans + skp + up + seq![p], ans + skp.push(p) + up + Seq::<Pair>::empty());
    lemma_valid_occ_equal(
        ans + skp + up + seq![p],
        ans + skp.push(p) + up + Seq::<Pair>::empty(),
        n,
    );
}

/// Dropping the current question without recording it keeps validity and
/// uniqueness: the touched pairs only shrink.
proof fn lemma_drop_current(ans: Seq<Pair>, skp: Seq<Pair>, up: Seq<Pair>, p: Pair, n: nat)
    requires
        all_pairs_valid(ans + skp + up + seq![p], n),
        pairs_unordered_unique(ans + skp + up + seq![p]),
    ensures
        all_pairs_valid(ans + skp + up + Seq::<Pair>::empty(), n),
        pairs_unordered_unique(ans + skp + up + Seq::<Pair>::empty()),
{
    let old_all = ans + skp + up + seq![p];
    let new_all = ans + skp + up + Seq::<Pair>::empty();
    assert forall|k: int| 0 <= k < new_all.len() implies (#[trigger] new_all[k]).valid(n) by {
        assert(new_all[k] == old_all[k]);
        assert(old_all[k].valid(n));
    }
    assert forall|x: Pair| #[trigger] occ(new_all, x) + occ(new_all, x.flip()) <= 1 by {
        lemma_occ_four(ans, skp, up, seq![p], x);
        lemma_occ_four(ans, skp, up, seq![p], x.flip());
        lemma_occ_four(ans, skp, up, Seq::<Pair>::empty(), x);
        lemma_occ_four(ans, skp, up, Seq::<Pair>::empty(), x.flip());
        lemma_occ_singleton(p, x);
        lemma_occ_singleton(p, x.flip());
        assert(occ(Seq::<Pair>::empty(), x) == 0);
        assert(occ(Seq::<Pair>::empty(), x.flip()) == 0);
        assert(occ(old_all, x) + occ(old_all, x.flip()) <= 1);
    }
}

/// Recording an answer keeps the spanning guarantee of the pending pairs.
proof fn lemma_answer_pending(up: Seq<Pair>, ans: Seq<Pair>, p: Pair, n: nat)
    requires
        spans(up + ans + seq![p], n),
    ensures
        spans(up + ans.push(p) + Seq::<Pair>::empty(), n),
{
    assert forall|x: Pair|
        #[trigger] occ(up + ans + seq![p], x) == occ(
            up + ans.push(p) + Seq::<Pair>::empty(),
            x,
        ) by {
        lemma_occ_three(up, ans, seq![p], x);
        lemma_occ_three(up, ans.push(p), Seq::<Pair>::empty(), x);
        lemma_occ_push(ans, x, p);
        lemma_occ_singleton(p, x);
        assert(occ(Seq::<Pair>::empty(), x) == 0);
    }
    lemma_occ_equal_included(up + ans + seq![p], up + ans.push(p) + Seq::<Pair>::empty());
    lemma_spans_included(up + ans + seq![p], up + ans.push(p) + Seq::<Pair>::empty(), n);
}

/// A spanning edge list stays spanning when a pair is appended.
proof fn lemma_spans_push(ans: Seq<Pair>, p: Pair, n: nat)
    requires
        spans(ans, n),
    ensures
        spans(ans.push(p), n),
{
    assert(ans.push(p) =~= ans + seq![p]);
    lemma_included_prefix(ans, seq![p]);
    lemma_spans_included(ans, ans + seq![p], n);
}

/// Queueing the replacement keeps the spanning guarantee of the pending
/// pairs.
proof fn lemma_push_upcoming_pending(up: Seq<Pair>, ans: Seq<Pair>, q: Pair, n: nat)
    requires
        spans(up + ans + seq![q], n),
    ensures
        spans(up.push(q) + ans + Seq::<Pair>::empty(), n),
{
    assert forall|x: Pair|
        #[trigger] occ(up + ans + seq![q], x) == occ(
            up.push(q) + ans + Seq::<Pair>::empty(),
            x,
        ) by {
        lemma_occ_three(up, ans, seq![q], x);
        lemma_occ_three(up.push(q), ans, Seq::<Pair>::empty(), x);
        lemma_occ_push(up, x, q);
        lemma_occ_singleton(q, x);
        assert(occ(Seq::<Pair>::empty(), x) == 0);
    }
    lemma_occ_equal_included(up + ans + seq![q], up.push(q) + ans + Seq::<Pair>::empty());
    lemma_spans_included(up + ans + seq![q], up.push(q) + ans + Seq::<Pair>::empty(), n);
}

/// Queueing a fresh replacement keeps validity and uniqueness of the
/// session's touched pairs.
proof fn lemma_add_replacement(ans: Seq<Pair>, skp: Seq<Pair>, up: Seq<Pair>, q: Pair, n: nat)
    requires
        all_pairs_valid(ans + skp + up + Seq::<Pair>::empty(), n),
        pairs_unordered_unique(ans + skp + up + Seq::<Pair>::empty()),
        q.valid(n),
        !seq_contains_pair_unordered(ans, q),
        !seq_contains_pair_unordered(skp, q),
        !seq_contains_pair_unordered(up, q),
    ensures
        all_pairs_valid(ans + skp + up.push(q) + Seq::<Pair>::empty(), n),
        pairs_unordered_unique(ans + skp + up.push(q) + Seq::<Pair>::empty()),
{
    lemma_extend_session(ans, skp, up, q, n);
    assert forall|x: Pair|
        #[trigger] occ(ans + skp + up + seq![q], x) == occ(
            ans + skp + up.push(q) + Seq::<Pair>::empty(),
            x,
        ) by {
        lemma_occ_four(ans, skp, up, seq![q], x);
        lemma_occ_four(ans, skp, up.push(q), Seq::<Pair>::empty(), x);
        lemma_occ_push(up, x, q);
        lemma_occ_singleton(q, x);
        assert(occ(Seq::<Pair>::empty(), x) == 0);
    }
    lemma_unique_occ_equal(ans + skp + up + seq![q], ans + skp + up.push(q) + Seq::<Pair>::empty());
    lemma_valid_occ_equal(
        ans + skp + up + seq![q],
        ans + skp + up.push(q) + Seq::<Pair>::empty(),
        n,
    );
}

/// Validity splits over the session's four lists.
proof fn lemma_valid_four_split(ans: Seq<Pair>, skp: Seq<Pair>, up: Seq<Pair>, cur: Seq<Pair>, n: nat)
    requires
        all_pairs_valid(ans + skp + up + cur, n),
    ensures
        all_pairs_valid(ans, n),
        all_pairs_valid(skp, n),
        all_pairs_valid(up, n),
{
    lemma_valid_concat(ans + skp + up, cur, n);
    lemma_valid_concat(ans + skp, up, n);
    lemma_valid_concat(ans, skp, n);
}

/// A currently proposed pair is valid and stands in none of the three lists:
/// it was taken out of the queue and recorded nowhere else yet.
proof fn lemma_cur_fresh(ans: Seq<Pair>, skp: Seq<Pair>, up: Seq<Pair>, p: Pair, n: nat)
    requires
        all_pairs_valid(ans + skp + up + seq![p], n),
        pairs_unordered_unique(ans + skp + up + seq![p]),
    ensures
        p.valid(n),
        !seq_contains_pair_unordered(ans, p),
        !seq_contains_pair_unordered(skp, p),
        !seq_contains_pair_unordered(up, p),
{
    let all = ans + skp + up + seq![p];
    assert(all[all.len() - 1] == p);
    assert(all[all.len() - 1].valid(n));
    lemma_occ_four(ans, skp, up, seq![p], p);
    lemma_occ_four(ans, skp, up, seq![p], p.flip());
    lemma_occ_singleton(p, p);
    lemma_occ_singleton(p, p.flip());
    assert(p.flip() != p);
    assert(occ(all, p) + occ(all, p.flip()) <= 1);
    lemma_contains_unordered_occ(ans, p);
    lemma_contains_unordered_occ(skp, p);
    lemma_contains_unordered_occ(up, p);
}

proof fn lemma_valid_push(s: Seq<Pair>, q: Pair, n: nat)
    requires
        all_pairs_valid(s, n),
        q.valid(n),
    ensures
        all_pairs_valid(s.push(q), n),
{
    assert forall|k: int| 0 <= k < s.push(q).len() implies (#[trigger] s.push(q)[k]).valid(n) by {
        if k < s.len() {
            assert(s.push(q)[k] == s[k]);
            assert(s[k].valid(n));
        } else {
            assert(s.push(q)[k] == q);
        }
    }
}

/// The adaptive comparison scheduler. A session proceeds by alternating
/// [`Scheduler::next_step`], which proposes a comparison, with
/// [`Scheduler::submit`], which records the collaborator's response; the
/// scheduler keeps the comparison graph on course to connect all entities.
pub struct Scheduler<V> {
    n: usize,
    phase: Phase,
    upcoming: Vec<Pair>,
    skipped: Vec<Pair>,
    answered: Vec<Pair>,
    observations: Vec<Observation<V>>,
    current: Option<Pair>,
    prev_min_links: usize,
    signal: Option<usize>,
}

impl<V> Scheduler<V> {
    /// How many entities the session ranks.
    pub closed spec fn entity_count(self) -> usize {
        self.n
    }

    /// Where the session stands.
    pub closed spec fn phase(self) -> Phase {
        self.phase
    }

    /// Spanning questions queued and not yet asked, oldest first.
    pub closed spec fn upcoming_seq(self) -> Seq<Pair> {
        self.upcoming@
    }

    /// Pairs that were skipped.
    pub closed spec fn skipped_seq(self) -> Seq<Pair> {
        self.skipped@
    }

    /// Pairs that were answered, in answering order.
    pub closed spec fn answered_seq(self) -> Seq<Pair> {
        self.answered@
    }

    /// The recorded observations, one per answered pair.
    pub closed spec fn observations_seq(self) -> Seq<Observation<V>> {
        self.observations@
    }

    /// The proposed pair awaiting a response, if any.
    pub closed spec fn current_question(self) -> Option<Pair> {
        self.current
    }

    /// The confidence signal of the last adaptive proposal, set when the
    /// minimum link count changed.
    pub closed spec fn last_signal(self) -> Option<usize> {
        self.signal
    }

    /// The minimum link count last announced.
    pub closed spec fn prev_links(self) -> usize {
        self.prev_min_links
    }

    /// The proposed pair as a sequence: one element when a question is open.
    pub open spec fn current_seq(self) -> Seq<Pair> {
        match self.current_question() {
            Option::Some(p) => seq![p],
            Option::None => Seq::empty(),
        }
    }

    /// The pairs whose eventual answers the spanning guarantee counts on:
    /// still queued, already answered, and the one currently proposed.
    pub open spec fn pending_edges(self) -> Seq<Pair> {
        self.upcoming_seq() + self.answered_seq() + self.current_seq()
    }

    /// Every pair the session has touched, over the three lists and the
    /// currently proposed question.
    pub open spec fn all_recorded(self) -> Seq<Pair> {
        self.answered_seq() + self.skipped_seq() + self.upcoming_seq() + self.current_seq()
    }

    /// Session invariant: all touched pairs are valid, no unordered pair is
    /// touched twice, observations mirror the answered pairs, and the phase's
    /// spanning guarantee holds - during the spanning phase the pending pairs
    /// connect all entities, afterwards the answered pairs alone do.
    pub open spec fn wf(self) -> bool {
        &&& self.entity_count() >= 1
        &&& all_pairs_valid(self.all_recorded(), self.entity_count() as nat)
        &&& pairs_unordered_unique(self.all_recorded())
        &&& obs_match(self.observations_seq(), self.answered_seq())
        &&& (match self.phase() {
            Phase::Spanning => spans(self.pending_edges(), self.entity_count() as nat),
            Phase::Adaptive => spans(self.answered_seq(), self.entity_count() as nat)
                && self.upcoming_seq().len() == 0,
            Phase::Done => spans(self.answered_seq(), self.entity_count() as nat)
                && self.current_question() is None && self.upcoming_seq().len() == 0,
            Phase::Failed => self.current_question() is None,
        })
    }

    /// Starts a session over `n` entities in the spanning phase. The spanning
    /// question list holds `n - 1` pairs and by itself already connects all
    /// `n` entities.
    pub fn new(n: usize) -> (s: Scheduler<V>)
        requires
            n >= 1,
        ensures
            s.wf(),
            s.entity_count() == n,
            s.phase() == Phase::Spanning,
            s.answered_seq().len() == 0,
            s.skipped_seq().len() == 0,
            s.observations_seq().len() == 0,
            s.current_question() is None,
            s.upcoming_seq().len() == n - 1,
            spans(s.upcoming_seq(), n as nat),
    {
        let upcoming = gen_min_questions(n);
        let s = Scheduler {
            n,
            phase: Phase::Spanning,
            upcoming,
            skipped: Vec::new(),
            answered: Vec::new(),
            observations: Vec::new(),
            current: None,
            prev_min_links: 0,
            signal: None,
        };
        proof {
            assert(s.all_recorded() =~= s.upcoming_seq());
            assert(s.pending_edges() =~= s.upcoming_seq());
        }
        s
    }

    /// Number of entities in the session.
    pub fn num_entities(&self) -> (r: usize)
        ensures
            r == self.entity_count(),
    {
        self.n
    }

    /// Where the session stands.
    pub fn current_phase(&self) -> (r: Phase)
        ensures
            r == self.phase(),
    {
        self.phase
    }

    /// The confidence signal of the last adaptive proposal: observational
    /// only, never a control input.
    pub fn confidence_signal(&self) -> (r: Option<usize>)
        ensures
            r == self.last_signal(),
    {
        self.signal
    }

    /// The recorded observations, one per answered comparison, in order.
    pub fn observations(&self) -> (r: &Vec<Observation<V>>)
        ensures
            r@ == self.observations_seq(),
    {
        &self.observations
    }

    /// Gives the observations up, consuming the scheduler.
    pub fn into_observations(self) -> (r: Vec<Observation<V>>)
        ensures
            r@ == self.observations_seq(),
    {
        self.observations
    }

    /// The answered pairs, in answering order.
    pub fn answered_pairs(&self) -> (r: &Vec<Pair>)
        ensures
            r@ == self.answered_seq(),
    {
        &self.answered
    }

    /// The skipped pairs.
    pub fn skipped_pairs(&self) -> (r: &Vec<Pair>)
        ensures
            r@ == self.skipped_seq(),
    {
        &self.skipped
    }

    /// The queued spanning questions not yet asked.
    pub fn upcoming_pairs(&self) -> (r: &Vec<Pair>)
        ensures
            r@ == self.upcoming_seq(),
    {
        &self.upcoming
    }

    /// Proposes the next comparison, or reports that scheduling is over.
    ///
    /// In the spanning phase the newest queued pair is taken up. In the
    /// adaptive phase, of the pairs not yet answered or skipped one with the
    /// lowest link count is chosen, ties broken by a fresh shuffle; when no
    /// such pair is left the session completes, fully linked. A pair already
    /// proposed and not yet submitted is proposed again unchanged.
    pub fn next_step(&mut self) -> (step: Step)
        requires
            old(self).wf(),
        ensures
            final(self).wf(),
            final(self).entity_count() == old(self).entity_count(),
            final(self).answered_seq() == old(self).answered_seq(),
            final(self).skipped_seq() == old(self).skipped_seq(),
            final(self).observations_seq() == old(self).observations_seq(),
            match step {
                Step::Ask(p) => {
                    &&& final(self).current_question() == Some(p)
                    &&& p.valid(old(self).entity_count() as nat)
                    &&& !seq_contains_pair_unordered(old(self).answered_seq(), p)
                    &&& !seq_contains_pair_unordered(old(self).skipped_seq(), p)
                    &&& (final(self).phase() == Phase::Spanning || final(self).phase()
                        == Phase::Adaptive)
                    &&& (old(self).current_question() is Some ==> *final(self) == *old(self)
                        && old(self).current_question() == Some(p))
                    &&& (old(self).current_question() is None && final(self).phase()
                        == Phase::Spanning ==> {
                        &&& old(self).phase() == Phase::Spanning
                        &&& old(self).upcoming_seq().len() > 0
                        &&& p == old(self).upcoming_seq().last()
                        &&& final(self).upcoming_seq() == old(self).upcoming_seq().drop_last()
                    })
                    &&& (old(self).current_question() is None && final(self).phase()
                        == Phase::Adaptive ==> {
                        let links = spec_link_count(old(self).answered_seq(), p);
                        &&& is_remaining(
                            old(self).answered_seq(),
                            old(self).skipped_seq(),
                            old(self).entity_count() as nat,
                            p,
                        )
                        &&& (forall|q: Pair|
                            #[trigger] is_remaining(
                                old(self).answered_seq(),
                                old(self).skipped_seq(),
                                old(self).entity_count() as nat,
                                q,
                            ) ==> links <= spec_link_count(old(self).answered_seq(), q))
                        &&& final(self).upcoming_seq() == old(self).upcoming_seq()
                        &&& (links != old(self).prev_links() as int ==> final(self).last_signal()
                            == Some(links as usize) && final(self).prev_links() as int == links)
                        &&& (links == old(self).prev_links() as int ==> final(self).last_signal()
                            is None && final(self).prev_links() == old(self).prev_links())
                    })
                },
                Step::Finished => {
                    &&& final(self).current_question() is None
                    &&& (final(self).phase() == Phase::Done || final(self).phase()
                        == Phase::Failed)
                    &&& (old(self).phase() == Phase::Done || old(self).phase() == Phase::Failed
                        ==> *final(self) == *old(self))
                    &&& ((old(self).phase() == Phase::Spanning || old(self).phase()
                        == Phase::Adaptive) ==> final(self).phase() == Phase::Done && forall|
                        q: Pair,
                    |
                        !is_remaining(
                            old(self).answered_seq(),
                            old(self).skipped_seq(),
                            old(self).entity_count() as nat,
                            q,
                        ))
                },
            },
    {
        let ghost n = self.n;
        match self.phase {
            Phase::Done | Phase::Failed => {
                return Step::Finished;
            },
            _ => {},
        }
        match self.current {
            Some(p) => {
                proof {
                    lemma_cur_fresh(self.answered@, self.skipped@, self.upcoming@, p, n as nat);
                }
                return Step::Ask(p);
            },
            None => {},
        }
        if self.phase == Phase::Spanning {
            if self.upcoming.len() > 0 {
                let p = self.take_spanning_question();
                return Step::Ask(p);
            } else {
                self.phase = Phase::Adaptive;
                proof {
                    assert(old(self).pending_edges() =~= self.answered@);
                }
            }
        }
        match self.select_adaptive_question() {
            Some(p) => Step::Ask(p),
            None => Step::Finished,
        }
    }

    /// Takes the newest queued spanning pair up as the current question.
    fn take_spanning_question(&mut self) -> (p: Pair)
        requires
            old(self).wf(),
            old(self).phase() == Phase::Spanning,
            old(self).current_question() is None,
            old(self).upcoming_seq().len() > 0,
        ensures
            final(self).wf(),
            p == old(self).upcoming_seq().last(),
            p.valid(old(self).entity_count() as nat),
            !seq_contains_pair_unordered(old(self).answered_seq(), p),
            !seq_contains_pair_unordered(old(self).skipped_seq(), p),
            final(self).current_question() == Some(p),
            final(self).phase() == Phase::Spanning,
            final(self).entity_count() == old(self).entity_count(),
            final(self).answered_seq() == old(self).answered_seq(),
            final(self).skipped_seq() == old(self).skipped_seq(),
            final(self).observations_seq() == old(self).observations_seq(),
            final(self).upcoming_seq() == old(self).upcoming_seq().drop_last(),
    {
        let ghost n = self.n;
        let p = self.upcoming[self.upcoming.len() - 1];
        let _popped = self.upcoming.pop();
        self.current = Some(p);
        self.signal = None;
        proof {
            let ans = old(self).answered_seq();
            let skp = old(self).skipped_seq();
            let up0 = old(self).upcoming_seq();
            assert(old(self).all_recorded() == ans + skp + up0 + Seq::<Pair>::empty());
            assert(old(self).pending_edges() == up0 + ans + Seq::<Pair>::empty());
            lemma_pop_to_current(ans, skp, up0, n as nat);
            assert(self.all_recorded() == ans + skp + up0.drop_last() + seq![p]);
            assert(self.pending_edges() == up0.drop_last() + ans + seq![p]);
            lemma_cur_fresh(self.answered@, self.skipped@, self.upcoming@, p, n as nat);
        }
        p
    }

    /// Chooses the next adaptive question: of the pairs not yet answered or
    /// skipped, one with the lowest link count, ties broken by a fresh
    /// shuffle. `None` means no askable pair is left and the session is done.
    fn select_adaptive_question(&mut self) -> (r: Option<Pair>)
        requires
            old(self).wf(),
            old(self).phase() == Phase::Adaptive,
            old(self).current_question() is None,
        ensures
            final(self).wf(),
            final(self).entity_count() == old(self).entity_count(),
            final(self).answered_seq() == old(self).answered_seq(),
            final(self).skipped_seq() == old(self).skipped_seq(),
            final(self).observations_seq() == old(self).observations_seq(),
            final(self).upcoming_seq() == old(self).upcoming_seq(),
            match r {
                Some(p) => {
                    let links = spec_link_count(old(self).answered_seq(), p);
                    &&& final(self).current_question() == Some(p)
                    &&& final(self).phase() == Phase::Adaptive
                    &&& is_remaining(
                        old(self).answered_seq(),
                        old(self).skipped_seq(),
                        old(self).entity_count() as nat,
                        p,
                    )
                    &&& (forall|q: Pair|
                        #[trigger] is_remaining(
                            old(self).answered_seq(),
                            old(self).skipped_seq(),
                            old(self).entity_count() as nat,
                            q,
                        ) ==> links <= spec_link_count(old(self).answered_seq(), q))
                    &&& (links != old(self).prev_links() as int ==> final(self).last_signal()
                        == Some(links as usize) && final(self).prev_links() as int == links)
                    &&& (links == old(self).prev_links() as int ==> final(self).last_signal()
                        is None && final(self).prev_links() == old(self).prev_links())
                },
                None => {
                    &&& final(self).current_question() is None
                    &&& final(self).phase() == Phase::Done
                    &&& (forall|q: Pair|
                        !is_remaining(
                            old(self).answered_seq(),
                            old(self).skipped_seq(),
                            old(self).entity_count() as nat,
                            q,
                        ))
                },
            },
    {
        let ghost n = self.n;
        let ghost ans = self.answered@;
        let ghost skp = self.skipped@;
        let mut rem = remaining_pairs(self.n, &self.answered, &self.skipped);
        if rem.len() == 0 {
            self.phase = Phase::Done;
            proof {
                assert forall|q: Pair| !is_remaining(ans, skp, n as nat, q) by {
                    if is_remaining(ans, skp, n as nat, q) {
                        assert(seq_contains_pair_unordered(rem@, q));
                        let k = choose|k: int|
                            0 <= k < rem@.len() && #[trigger] rem@[k].same_unordered(q);
                        assert(false);
                    }
                }
            }
            return None;
        }
        let ghost rem_pre = rem@;
        shuffle(&mut rem);
        proof {
            lemma_remaining_shuffled(ans, skp, n as nat, rem_pre, rem@);
        }
        let ghost mid = *self;
        let mut best: Pair = rem[0];
        let mut best_links: usize = link_count(&self.answered, best);
        let mut k: usize = 1;
        while k < rem.len()
            invariant
                1 <= k <= rem@.len(),
                *self == mid,
                self.answered@ == ans,
                is_remaining(ans, skp, n as nat, best),
                best_links as int == spec_link_count(ans, best),
                forall|m: int|
                    0 <= m < k ==> best_links as int <= spec_link_count(ans, #[trigger] rem@[m]),
                forall|m: int|
                    0 <= m < rem@.len() ==> is_remaining(ans, skp, n as nat, #[trigger] rem@[m]),
            decreases rem@.len() - k,
        {
            let cand = rem[k];
            let cl = link_count(&self.answered, cand);
            if cl < best_links {
                best = cand;
                best_links = cl;
            }
            k += 1;
        }
        self.current = Some(best);
        if best_links != self.prev_min_links {
            self.signal = Some(best_links);
            self.prev_min_links = best_links;
        } else {
            self.signal = None;
        }
        proof {
            lemma_min_over_remaining(ans, skp, n as nat, rem@, best_links as int);
            assert(old(self).all_recorded() == ans + skp + self.upcoming@ + Seq::<Pair>::empty());
            assert(self.upcoming@.len() == 0);
            assert(occ(self.upcoming@, best) == 0);
            assert(occ(self.upcoming@, best.flip()) == 0);
            lemma_contains_unordered_occ(self.upcoming@, best);
            lemma_extend_session(ans, skp, self.upcoming@, best, n as nat);
            assert(self.all_recorded() == ans + skp + self.upcoming@ + seq![best]);
        }
        Some(best)
    }

    /// Records the collaborator's response to the currently proposed pair.
    ///
    /// A value becomes an observation and the pair counts as answered. A skip
    /// in the spanning phase triggers replacement: if the remaining pairs
    /// already connect the skipped pair's ends nothing is queued, otherwise a
    /// replacement pair is chosen and queued, and if none exists the session
    /// fails with `ScheduleExhausted`. A skip in the adaptive phase needs no
    /// repair. A quit during the spanning phase fails the session with
    /// `AbortedBySpanningQuit`; a quit during the adaptive phase completes it
    /// with the observations gathered so far.
    pub fn submit(&mut self, response: Response<V>) -> (r: Result<(), ScheduleError>)
        requires
            old(self).wf(),
            old(self).current_question() is Some,
        ensures
            final(self).wf(),
            final(self).entity_count() == old(self).entity_count(),
            final(self).current_question() is None,
            (old(self).current_question() matches Some(p) ==> {
                &&& (response matches Response::Value(v) ==> {
                    &&& r == Ok::<(), ScheduleError>(())
                    &&& final(self).phase() == old(self).phase()
                    &&& final(self).answered_seq() == old(self).answered_seq().push(p)
                    &&& final(self).observations_seq() == old(self).observations_seq().push(
                        Observation { i: p.a, j: p.b, ratio: v },
                    )
                    &&& final(self).skipped_seq() == old(self).skipped_seq()
                    &&& final(self).upcoming_seq() == old(self).upcoming_seq()
                })
                &&& (response is Skip ==> {
                    &&& final(self).skipped_seq() == old(self).skipped_seq().push(p)
                    &&& final(self).answered_seq() == old(self).answered_seq()
                    &&& final(self).observations_seq() == old(self).observations_seq()
                    &&& (old(self).phase() == Phase::Adaptive ==> r == Ok::<(), ScheduleError>(())
                        && final(self).phase() == Phase::Adaptive && final(self).upcoming_seq()
                        == old(self).upcoming_seq())
                    &&& (old(self).phase() == Phase::Spanning ==> {
                        let live = old(self).upcoming_seq() + old(self).answered_seq();
                        let skp1 = old(self).skipped_seq().push(p);
                        &&& (connected(live, p.a, p.b) ==> r == Ok::<(), ScheduleError>(())
                            && final(self).phase() == Phase::Spanning && final(self).upcoming_seq()
                            == old(self).upcoming_seq())
                        &&& (!connected(live, p.a, p.b) ==> {
                            &&& (r == Ok::<(), ScheduleError>(()) <==> exists|q: Pair|
                                is_replacement_candidate(live, skp1, p, q))
                            &&& (r == Ok::<(), ScheduleError>(()) ==> final(self).phase()
                                == Phase::Spanning && exists|q: Pair|
                                #[trigger] is_replacement_candidate(live, skp1, p, q) && final(self).upcoming_seq() == old(self).upcoming_seq().push(q))
                            &&& (r != Ok::<(), ScheduleError>(()) ==> r == Err::<
                                (),
                                ScheduleError,
                            >(ScheduleError::ScheduleExhausted) && final(self).phase()
                                == Phase::Failed && final(self).upcoming_seq() == old(self).upcoming_seq())
                        })
                    })
                })
                &&& (response is Quit ==> {
                    &&& final(self).answered_seq() == old(self).answered_seq()
                    &&& final(self).skipped_seq() == old(self).skipped_seq()
                    &&& final(self).observations_seq() == old(self).observations_seq()
                    &&& final(self).upcoming_seq() == old(self).upcoming_seq()
                    &&& (old(self).phase() == Phase::Spanning ==> r == Err::<(), ScheduleError>(
                        ScheduleError::AbortedBySpanningQuit,
                    ) && final(self).phase() == Phase::Failed)
                    &&& (old(self).phase() == Phase::Adaptive ==> r == Ok::<(), ScheduleError>(())
                        && final(self).phase() == Phase::Done)
                })
            }),
    {
        match response {
            Response::Value(v) => {
                self.record_value(v);
                Ok(())
            },
            Response::Skip => self.record_skip(),
            Response::Quit => {
                let ghost n = self.n;
                let p = self.current.unwrap();
                self.current = None;
                proof {
                    lemma_drop_current(self.answered@, self.skipped@, self.upcoming@, p, n as nat);
                    assert(self.all_recorded() == self.answered@ + self.skipped@ + self.upcoming@
                        + Seq::<Pair>::empty());
                }
                if self.phase == Phase::Spanning {
                    self.phase = Phase::Failed;
                    Err(ScheduleError::AbortedBySpanningQuit)
                } else {
                    proof {
                        assert(self.phase == Phase::Adaptive);
                    }
                    self.phase = Phase::Done;
                    Ok(())
                }
            },
        }
    }

    /// Records an answered value: the pair moves to the answered list and the
    /// observation is appended.
    fn record_value(&mut self, v: V)
        requires
            old(self).wf(),
            old(self).current_question() is Some,
        ensures
            final(self).wf(),
            final(self).entity_count() == old(self).entity_count(),
            final(self).current_question() is None,
            final(self).phase() == old(self).phase(),
            final(self).skipped_seq() == old(self).skipped_seq(),
            final(self).upcoming_seq() == old(self).upcoming_seq(),
            (old(self).current_question() matches Some(p) ==> final(self).answered_seq() == old(self).answered_seq().push(p) && final(self).observations_seq() == old(self).observations_seq().push(Observation { i: p.a, j: p.b, ratio: v })),
    {
        let ghost n = self.n;
        let ghost ans = self.answered@;
        let ghost skp = self.skipped@;
        let ghost up = self.upcoming@;
        let p = self.current.unwrap();
        self.current = None;
        proof {
            assert(old(self).all_recorded() == ans + skp + up + seq![p]);
            lemma_cur_fresh(ans, skp, up, p, n as nat);
        }
        self.answered.push(p);
        self.observations.push(Observation { i: p.a, j: p.b, ratio: v });
        proof {
            lemma_answer_moves_current(ans, skp, up, p, n as nat);
            assert(self.all_recorded() == ans.push(p) + skp + up + Seq::<Pair>::empty());
            assert forall|k: int|
                0 <= k < self.observations@.len() implies ((#[trigger] self.observations@[k]).i
                == self.answered@[k].a && self.observations@[k].j == self.answered@[k].b) by {
                if k < ans.len() {
                    assert(self.observations@[k] == old(self).observations_seq()[k]);
                    assert(self.answered@[k] == ans[k]);
                }
            }
            if self.phase == Phase::Spanning {
                assert(old(self).pending_edges() == up + ans + seq![p]);
                lemma_answer_pending(up, ans, p, n as nat);
                assert(self.pending_edges() == up + ans.push(p) + Seq::<Pair>::empty());
            } else {
                assert(self.phase == Phase::Adaptive);
                lemma_spans_push(ans, p, n as nat);
            }
        }
    }

    /// Records a skip: the pair moves to the skipped list, and in the
    /// spanning phase the connectivity it was to provide is repaired or the
    /// session fails.
    fn record_skip(&mut self) -> (r: Result<(), ScheduleError>)
        requires
            old(self).wf(),
            old(self).current_question() is Some,
        ensures
            final(self).wf(),
            final(self).entity_count() == old(self).entity_count(),
            final(self).current_question() is None,
            final(self).answered_seq() == old(self).answered_seq(),
            final(self).observations_seq() == old(self).observations_seq(),
            (old(self).current_question() matches Some(p) ==> {
                &&& final(self).skipped_seq() == old(self).skipped_seq().push(p)
                &&& (old(self).phase() == Phase::Adaptive ==> r == Ok::<(), ScheduleError>(())
                    && final(self).phase() == Phase::Adaptive && final(self).upcoming_seq() == old(self).upcoming_seq())
                &&& (old(self).phase() == Phase::Spanning ==> {
                    let live = old(self).upcoming_seq() + old(self).answered_seq();
                    let skp1 = old(self).skipped_seq().push(p);
                    &&& (connected(live, p.a, p.b) ==> r == Ok::<(), ScheduleError>(()) && final(self).phase() == Phase::Spanning && final(self).upcoming_seq() == old(self).upcoming_seq())
                    &&& (!connected(live, p.a, p.b) ==> {
                        &&& (r == Ok::<(), ScheduleError>(()) <==> exists|q: Pair|
                            is_replacement_candidate(live, skp1, p, q))
                        &&& (r == Ok::<(), ScheduleError>(()) ==> final(self).phase()
                            == Phase::Spanning && exists|q: Pair|
                            #[trigger] is_replacement_candidate(live, skp1, p, q) && final(self).upcoming_seq() == old(self).upcoming_seq().push(q))
                        &&& (r != Ok::<(), ScheduleError>(()) ==> r == Err::<(), ScheduleError>(
                            ScheduleError::ScheduleExhausted,
                        ) && final(self).phase() == Phase::Failed && final(self).upcoming_seq()
                            == old(self).upcoming_seq())
                    })
                })
            }),
    {
        let ghost n = self.n;
        let ghost ans = self.answered@;
        let ghost skp = self.skipped@;
        let ghost up = self.upcoming@;
        let p = self.current.unwrap();
        self.current = None;
        proof {
            assert(old(self).all_recorded() == ans + skp + up + seq![p]);
            lemma_cur_fresh(ans, skp, up, p, n as nat);
            lemma_valid_four_split(ans, skp, up, seq![p], n as nat);
        }
        self.skipped.push(p);
        proof {
            lemma_skip_moves_current(ans, skp, up, p, n as nat);
            assert(self.all_recorded() == ans + skp.push(p) + up + Seq::<Pair>::empty());
        }
        if self.phase == Phase::Adaptive {
            return Ok(());
        }
        proof {
            assert(self.phase == Phase::Spanning);
            assert(old(self).pending_edges() == up + ans + seq![p]);
        }
        let live = concat_pairs(&self.upcoming, &self.answered);
        proof {
            lemma_valid_concat(up, ans, n as nat);
        }
        let marks = component_of(self.n, &live, p.a);
        if marks[p.b] {
            proof {
                assert(connected(live@, p.a, p.b));
                lemma_drop_connected_edge(live@, p, n as nat);
                assert(self.pending_edges() =~= live@);
            }
            Ok(())
        } else {
            match replace_skipped_pair(&self.upcoming, &self.skipped, &self.answered, p, self.n) {
                Some(q) => {
                    let ghost skp1 = self.skipped@;
                    proof {
                        assert(is_replacement_candidate(live@, skp1, p, q));
                        crate::pair::lemma_contains_unordered_concat(up, ans, q);
                    }
                    self.upcoming.push(q);
                    proof {
                        lemma_add_replacement(ans, skp1, up, q, n as nat);
                        assert(self.all_recorded() == ans + skp1 + up.push(q)
                            + Seq::<Pair>::empty());
                        lemma_replacement_preserves_span(live@, p, q, n as nat);
                        lemma_push_upcoming_pending(up, ans, q, n as nat);
                        assert(self.pending_edges() == up.push(q) + ans + Seq::<Pair>::empty());
                        assert(is_replacement_candidate(live@, skp1, p, q) && self.upcoming@
                            == up.push(q));
                    }
                    Ok(())
                },
                None => {
                    self.phase = Phase::Failed;
                    Err(ScheduleError::ScheduleExhausted)
                },
            }
        }
    }

    /// When a session has completed, the answered pairs alone connect all
    /// entities - and so do the pairs of the recorded observations, which
    /// mirror them: the system built from the observations is structurally
    /// solvable by connectivity alone.
    pub proof fn lemma_done_spans(self)
        requires
            self.wf(),
            self.phase() == Phase::Done,
        ensures
            spans(self.answered_seq(), self.entity_count() as nat),
            spans(
                self.observations_seq().map_values(|ob: Observation<V>| Pair { a: ob.i, b: ob.j }),
                self.entity_count() as nat,
            ),
    {
        let mapped = self.observations_seq().map_values(
            |ob: Observation<V>| Pair { a: ob.i, b: ob.j },
        );
        assert(mapped =~= self.answered_seq());
    }

    /// Every recorded observation speaks of two distinct entities of the
    /// session.
    pub proof fn lemma_observations_valid(self)
        requires
            self.wf(),
        ensures
            forall|k: int|
                0 <= k < self.observations_seq().len() ==> crate::system::obs_valid(
                    #[trigger] self.observations_seq()[k],
                    self.entity_count() as nat,
                ),
    {
        let n = self.entity_count() as nat;
        let ans = self.answered_seq();
        let skp = self.skipped_seq();
        let up = self.upcoming_seq();
        let cur = self.current_seq();
        assert forall|k: int|
            0 <= k < self.observations_seq().len() implies crate::system::obs_valid(
            #[trigger] self.observations_seq()[k],
            n,
        ) by {
            assert((ans + skp + up + cur)[k] == ans[k]);
            assert((ans + skp + up + cur)[k].valid(n));
            assert(self.observations_seq()[k].i == ans[k].a);
        }
    }
}

} // verus!
