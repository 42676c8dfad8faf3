//! Connectivity of the comparison graph: which entities are mutually reachable
//! through a list of pairs, component computation, and the lemmas that carry
//! the spanning guarantee through skip replacement.

use vstd::prelude::*;
use vstd::pervasive::VecAdditionalExecFns;
use crate::pair::{
    Pair, occ, seq_contains_pair_unordered, lemma_occ_pos_index, lemma_index_occ_pos,
    lemma_occ_le_len,
};

verus! {

/// Some pair of `edges` joins `x` and `y` directly, in either orientation.
pub open spec fn edge_step(edges: Seq<Pair>, x: usize, y: usize) -> bool {
    seq_contains_pair_unordered(edges, Pair { a: x, b: y })
}

/// Consecutive entries of `vs` are joined by pairs of `edges`.
pub open spec fn is_path(edges: Seq<Pair>, vs: Seq<usize>) -> bool {
    forall|k: int| 0 <= k < vs.len() - 1 ==> edge_step(edges, #[trigger] vs[k], vs[k + 1])
}

/// `vs` is a walk through `edges` from `x` to `y`.
pub open spec fn path_between(edges: Seq<Pair>, vs: Seq<usize>, x: usize, y: usize) -> bool {
    vs.len() >= 1 && vs[0] == x && vs[vs.len() - 1] == y && is_path(edges, vs)
}

/// `x` and `y` are joined through some chain of pairs of `edges`.
pub open spec fn connected(edges: Seq<Pair>, x: usize, y: usize) -> bool {
    exists|vs: Seq<usize>| path_between(edges, vs, x, y)
}

/// Every entity below `n` can reach every other through `edges`.
pub open spec fn spans(edges: Seq<Pair>, n: nat) -> bool {
    forall|x: usize, y: usize| (x as nat) < n && (y as nat) < n ==> connected(edges, x, y)
}

/// Every pair of `s` is a real comparison over `n` entities.
pub open spec fn all_pairs_valid(s: Seq<Pair>, n: nat) -> bool {
    forall|k: int| 0 <= k < s.len() ==> (#[trigger] s[k]).valid(n)
}

/// Every pair of `e1` occurs, in some orientation, in `e2`.
pub open spec fn edges_included(e1: Seq<Pair>, e2: Seq<Pair>) -> bool {
    forall|k: int| 0 <= k < e1.len() ==> seq_contains_pair_unordered(e2, #[trigger] e1[k])
}

pub proof fn lemma_edge_step_sym(edges: Seq<Pair>, x: usize, y: usize)
    requires
        edge_step(edges, x, y),
    ensures
        edge_step(edges, y, x),
{
    crate::pair::lemma_contains_unordered_flip(edges, Pair { a: x, b: y });
    assert((Pair { a: x, b: y }).flip() == (Pair { a: y, b: x }));
}

pub proof fn lemma_connected_refl(edges: Seq<Pair>, x: usize)
    ensures
        connected(edges, x, x),
{
    let vs = seq![x];
    assert(path_between(edges, vs, x, x));
}

pub proof fn lemma_edge_connected(edges: Seq<Pair>, x: usize, y: usize)
    requires
        edge_step(edges, x, y),
    ensures
        connected(edges, x, y),
{
    let vs = seq![x, y];
    assert(vs[0] == x && vs[1] == y);
    assert(path_between(edges, vs, x, y));
}

pub proof fn lemma_connected_sym(edges: Seq<Pair>, x: usize, y: usize)
    requires
        connected(edges, x, y),
    ensures
        connected(edges, y, x),
{
    let p = choose|vs: Seq<usize>| path_between(edges, vs, x, y);
    let r = Seq::new(p.len(), |i: int| p[p.len() - 1 - i]);
    assert(r[0] == p[p.len() - 1]);
    assert(r[r.len() - 1] == p[0]);
    assert forall|k: int| 0 <= k < r.len() - 1 implies edge_step(edges, #[trigger] r[k], r[k + 1]) by {
        let j = p.len() - 2 - k;
        assert(r[k] == p[j + 1]);
        assert(r[k + 1] == p[j]);
        assert(edge_step(edges, p[j], p[j + 1]));
        lemma_edge_step_sym(edges, p[j], p[j + 1]);
    }
    assert(path_between(edges, r, y, x));
}

pub proof fn lemma_connected_trans(edges: Seq<Pair>, x: usize, y: usize, z: usize)
    requires
        connected(edges, x, y),
        connected(edges, y, z),
    ensures
        connected(edges, x, z),
{
    let p1 = choose|vs: Seq<usize>| path_between(edges, vs, x, y);
    let p2 = choose|vs: Seq<usize>| path_between(edges, vs, y, z);
    if p2.len() == 1 {
        assert(path_between(edges, p1, x, z));
    } else {
        let vs = p1 + p2.subrange(1, p2.len() as int);
        assert(vs.len() == p1.len() + p2.len() - 1);
        assert(vs[0] == p1[0]);
        assert(vs[vs.len() - 1] == p2[p2.len() - 1]);
        assert forall|k: int| 0 <= k < vs.len() - 1 implies edge_step(edges, #[trigger] vs[k], vs[k + 1]) by {
            if k < p1.len() - 1 {
                assert(vs[k] == p1[k]);
                assert(vs[k + 1] == p1[k + 1]);
                assert(edge_step(edges, p1[k], p1[k + 1]));
            } else if k == p1.len() - 1 {
                assert(vs[k] == p1[k]);
                assert(p1[k] == y);
                assert(vs[k + 1] == p2[1]);
                assert(edge_step(edges, p2[0], p2[1]));
            } else {
                let m = k - p1.len() + 1;
                assert(vs[k] == p2[m]);
                assert(vs[k + 1] == p2[m + 1]);
                assert(edge_step(edges, p2[m], p2[m + 1]));
            }
        }
        assert(path_between(edges, vs, x, z));
    }
}

/// The tail of a walk is a walk.
proof fn lemma_path_tail(edges: Seq<Pair>, vs: Seq<usize>)
    requires
        vs.len() >= 2,
        is_path(edges, vs),
    ensures
        edge_step(edges, vs[0], vs[1]),
        is_path(edges, vs.subrange(1, vs.len() as int)),
{
    let rest = vs.subrange(1, vs.len() as int);
    assert(edge_step(edges, vs[0], vs[1]));
    assert forall|k: int| 0 <= k < rest.len() - 1 implies edge_step(edges, #[trigger] rest[k], rest[k + 1]) by {
        assert(rest[k] == vs[k + 1]);
        assert(rest[k + 1] == vs[k + 2]);
        assert(edge_step(edges, vs[k + 1], vs[k + 2]));
    }
}

/// If every direct step of `e1` is a connection of `e2`, a walk through `e1`
/// connects its ends through `e2`.
proof fn lemma_path_transfer(e1: Seq<Pair>, e2: Seq<Pair>, vs: Seq<usize>)
    requires
        vs.len() >= 1,
        is_path(e1, vs),
        forall|u: usize, v: usize| #[trigger] edge_step(e1, u, v) ==> connected(e2, u, v),
    ensures
        connected(e2, vs[0], vs[vs.len() - 1]),
    decreases vs.len(),
{
    if vs.len() == 1 {
        lemma_connected_refl(e2, vs[0]);
    } else {
        lemma_path_tail(e1, vs);
        let rest = vs.subrange(1, vs.len() as int);
        lemma_path_transfer(e1, e2, rest);
        assert(rest[0] == vs[1]);
        assert(rest[rest.len() - 1] == vs[vs.len() - 1]);
        assert(connected(e2, vs[0], vs[1]));
        lemma_connected_trans(e2, vs[0], vs[1], vs[vs.len() - 1]);
    }
}

/// Connectivity transfers to any graph in which every direct step of the
/// first graph is itself a connection.
pub proof fn lemma_connected_transfer(e1: Seq<Pair>, e2: Seq<Pair>, x: usize, y: usize)
    requires
        connected(e1, x, y),
        forall|u: usize, v: usize| #[trigger] edge_step(e1, u, v) ==> connected(e2, u, v),
    ensures
        connected(e2, x, y),
{
    let vs = choose|vs: Seq<usize>| path_between(e1, vs, x, y);
    lemma_path_transfer(e1, e2, vs);
}

/// Connectivity is monotone in the edge list.
pub proof fn lemma_connected_mono(e1: Seq<Pair>, e2: Seq<Pair>, x: usize, y: usize)
    requires
        connected(e1, x, y),
        edges_included(e1, e2),
    ensures
        connected(e2, x, y),
{
    assert forall|u: usize, v: usize| #[trigger] edge_step(e1, u, v) implies connected(e2, u, v) by {
        let k = choose|k: int|
            0 <= k < e1.len() && #[trigger] e1[k].same_unordered(Pair { a: u, b: v });
        assert(seq_contains_pair_unordered(e2, e1[k]));
        let m = choose|m: int| 0 <= m < e2.len() && #[trigger] e2[m].same_unordered(e1[k]);
        assert(e1[k].flip().flip() == e1[k]);
        assert(e2[m].same_unordered(Pair { a: u, b: v }));
        assert(edge_step(e2, u, v));
        lemma_edge_connected(e2, u, v);
    }
    lemma_connected_transfer(e1, e2, x, y);
}

/// A prefix of a concatenation is included in it.
pub proof fn lemma_included_prefix(e1: Seq<Pair>, extra: Seq<Pair>)
    ensures
        edges_included(e1, e1 + extra),
{
    assert forall|k: int|
        0 <= k < e1.len() implies seq_contains_pair_unordered(e1 + extra, #[trigger] e1[k]) by {
        assert((e1 + extra)[k] == e1[k]);
        assert((e1 + extra)[k].same_unordered(e1[k]));
    }
}

/// Sequences with the same occurrence counts include each other's edges.
pub proof fn lemma_occ_equal_included(e1: Seq<Pair>, e2: Seq<Pair>)
    requires
        forall|p: Pair| #[trigger] occ(e1, p) == occ(e2, p),
    ensures
        edges_included(e1, e2),
        edges_included(e2, e1),
{
    assert forall|k: int|
        0 <= k < e1.len() implies seq_contains_pair_unordered(e2, #[trigger] e1[k]) by {
        lemma_index_occ_pos(e1, k);
        assert(occ(e2, e1[k]) > 0);
        let m = lemma_occ_pos_index(e2, e1[k]);
        assert(e2[m].same_unordered(e1[k]));
    }
    assert forall|k: int|
        0 <= k < e2.len() implies seq_contains_pair_unordered(e1, #[trigger] e2[k]) by {
        lemma_index_occ_pos(e2, k);
        assert(occ(e1, e2[k]) > 0);
        let m = lemma_occ_pos_index(e1, e2[k]);
        assert(e1[m].same_unordered(e2[k]));
    }
}

/// Spanning transfers along edge inclusion.
pub proof fn lemma_spans_included(e1: Seq<Pair>, e2: Seq<Pair>, n: nat)
    requires
        spans(e1, n),
        edges_included(e1, e2),
    ensures
        spans(e2, n),
{
    assert forall|x: usize, y: usize|
        (x as nat) < n && (y as nat) < n implies connected(e2, x, y) by {
        assert(connected(e1, x, y));
        lemma_connected_mono(e1, e2, x, y);
    }
}

/// Validity of all pairs transfers to any sequence with the same counts.
pub proof fn lemma_valid_occ_equal(e1: Seq<Pair>, e2: Seq<Pair>, n: nat)
    requires
        all_pairs_valid(e1, n),
        forall|p: Pair| #[trigger] occ(e1, p) == occ(e2, p),
    ensures
        all_pairs_valid(e2, n),
{
    assert forall|k: int| 0 <= k < e2.len() implies (#[trigger] e2[k]).valid(n) by {
        lemma_index_occ_pos(e2, k);
        assert(occ(e1, e2[k]) > 0);
        let m = lemma_occ_pos_index(e1, e2[k]);
        assert(e1[m].valid(n));
    }
}

/// Validity splits over concatenation.
pub proof fn lemma_valid_concat(s1: Seq<Pair>, s2: Seq<Pair>, n: nat)
    ensures
        all_pairs_valid(s1 + s2, n) <==> (all_pairs_valid(s1, n) && all_pairs_valid(s2, n)),
{
    if all_pairs_valid(s1 + s2, n) {
        assert forall|k: int| 0 <= k < s1.len() implies (#[trigger] s1[k]).valid(n) by {
            assert((s1 + s2)[k] == s1[k]);
            assert((s1 + s2)[k].valid(n));
        }
        assert forall|k: int| 0 <= k < s2.len() implies (#[trigger] s2[k]).valid(n) by {
            assert((s1 + s2)[s1.len() + k] == s2[k]);
            assert((s1 + s2)[s1.len() + k].valid(n));
        }
    }
    if all_pairs_valid(s1, n) && all_pairs_valid(s2, n) {
        assert forall|k: int| 0 <= k < (s1 + s2).len() implies (#[trigger] (s1 + s2)[k]).valid(n)
            by {
            if k < s1.len() {
                assert((s1 + s2)[k] == s1[k]);
                assert(s1[k].valid(n));
            } else {
                assert((s1 + s2)[k] == s2[k - s1.len()]);
                assert(s2[k - s1.len()].valid(n));
            }
        }
    }
}

/// A connection through valid pairs never leaves the entity range.
pub proof fn lemma_connected_bound(edges: Seq<Pair>, n: nat, x: usize, y: usize)
    requires
        all_pairs_valid(edges, n),
        connected(edges, x, y),
        (x as nat) < n,
    ensures
        (y as nat) < n,
{
    let vs = choose|vs: Seq<usize>| path_between(edges, vs, x, y);
    if vs.len() >= 2 {
        assert(edge_step(edges, vs[vs.len() - 2], vs[vs.len() - 1]));
        let k = choose|k: int|
            0 <= k < edges.len() && #[trigger] edges[k].same_unordered(
                Pair { a: vs[vs.len() - 2], b: vs[vs.len() - 1] },
            );
        assert(edges[k].valid(n));
    }
}

/// Replacing a skipped pair with one whose ends are reachable from the
/// skipped pair's respective ends keeps the graph spanning.
pub proof fn lemma_replacement_preserves_span(edges: Seq<Pair>, dropped: Pair, repl: Pair, n: nat)
    requires
        spans(edges + seq![dropped], n),
        connected(edges, dropped.a, repl.a),
        connected(edges, dropped.b, repl.b),
    ensures
        spans(edges + seq![repl], n),
{
    let e_old = edges + seq![dropped];
    let e_new = edges + seq![repl];
    lemma_included_prefix(edges, seq![repl]);
    assert forall|u: usize, v: usize| #[trigger] edge_step(e_old, u, v) implies connected(
        e_new,
        u,
        v,
    ) by {
        let k = choose|k: int|
            0 <= k < e_old.len() && #[trigger] e_old[k].same_unordered(Pair { a: u, b: v });
        if k < edges.len() {
            assert(edges[k].same_unordered(Pair { a: u, b: v }));
            assert(edge_step(edges, u, v));
            lemma_edge_connected(edges, u, v);
            lemma_connected_mono(edges, e_new, u, v);
        } else {
            assert(e_old[k] == dropped);
            lemma_connected_mono(edges, e_new, dropped.a, repl.a);
            lemma_connected_mono(edges, e_new, dropped.b, repl.b);
            assert(e_new[edges.len() as int] == repl);
            assert(e_new[edges.len() as int].same_unordered(Pair { a: repl.a, b: repl.b }));
            assert(edge_step(e_new, repl.a, repl.b));
            lemma_edge_connected(e_new, repl.a, repl.b);
            lemma_connected_trans(e_new, dropped.a, repl.a, repl.b);
            lemma_connected_sym(e_new, dropped.b, repl.b);
            lemma_connected_trans(e_new, dropped.a, repl.b, dropped.b);
            assert(connected(e_new, dropped.a, dropped.b));
            if u == dropped.b && v == dropped.a {
                lemma_connected_sym(e_new, dropped.a, dropped.b);
            }
        }
    }
    assert forall|x: usize, y: usize|
        (x as nat) < n && (y as nat) < n implies connected(e_new, x, y) by {
        assert(connected(e_old, x, y));
        lemma_connected_transfer(e_old, e_new, x, y);
    }
}

/// A queued pair whose ends the rest of the graph already connects is
/// redundant: dropping it keeps the graph spanning.
pub proof fn lemma_drop_connected_edge(edges: Seq<Pair>, p: Pair, n: nat)
    requires
        spans(edges + seq![p], n),
        connected(edges, p.a, p.b),
    ensures
        spans(edges, n),
{
    let e_old = edges + seq![p];
    assert forall|u: usize, v: usize| #[trigger] edge_step(e_old, u, v) implies connected(
        edges,
        u,
        v,
    ) by {
        let k = choose|k: int|
            0 <= k < e_old.len() && #[trigger] e_old[k].same_unordered(Pair { a: u, b: v });
        if k < edges.len() {
            assert(edges[k].same_unordered(Pair { a: u, b: v }));
            assert(edge_step(edges, u, v));
            lemma_edge_connected(edges, u, v);
        } else {
            assert(e_old[k] == p);
            if u == p.b && v == p.a {
                lemma_connected_sym(edges, p.a, p.b);
            }
        }
    }
    assert forall|x: usize, y: usize|
        (x as nat) < n && (y as nat) < n implies connected(edges, x, y) by {
        assert(connected(e_old, x, y));
        lemma_connected_transfer(e_old, edges, x, y);
    }
}

/// No pair of `edges` crosses the boundary of the marked set.
pub open spec fn edge_respects_marks(marks: Seq<bool>, p: Pair) -> bool {
    marks[p.a as int] <==> marks[p.b as int]
}

pub open spec fn marks_closed(edges: Seq<Pair>, marks: Seq<bool>) -> bool {
    forall|k: int| 0 <= k < edges.len() ==> edge_respects_marks(marks, #[trigger] edges[k])
}

/// A walk through valid pairs that starts inside a closed marked set stays
/// inside it.
proof fn lemma_path_stays_marked(edges: Seq<Pair>, marks: Seq<bool>, n: nat, vs: Seq<usize>)
    requires
        marks.len() == n,
        all_pairs_valid(edges, n),
        marks_closed(edges, marks),
        vs.len() >= 1,
        is_path(edges, vs),
        (vs[0] as nat) < n,
        marks[vs[0] as int],
    ensures
        (vs[vs.len() - 1] as nat) < n,
        marks[vs[vs.len() - 1] as int],
    decreases vs.len(),
{
    if vs.len() >= 2 {
        lemma_path_tail(edges, vs);
        let k = choose|k: int|
            0 <= k < edges.len() && #[trigger] edges[k].same_unordered(
                Pair { a: vs[0], b: vs[1] },
            );
        assert(edges[k].valid(n));
        assert(edge_respects_marks(marks, edges[k]));
        assert((vs[1] as nat) < n && marks[vs[1] as int]);
        let rest = vs.subrange(1, vs.len() as int);
        assert(rest[0] == vs[1]);
        assert(rest[rest.len() - 1] == vs[vs.len() - 1]);
        lemma_path_stays_marked(edges, marks, n, rest);
    }
}

/// A closed marked set containing `x` contains everything connected to `x`.
proof fn lemma_closed_marks_cover(edges: Seq<Pair>, marks: Seq<bool>, n: nat, x: usize, y: usize)
    requires
        marks.len() == n,
        all_pairs_valid(edges, n),
        marks_closed(edges, marks),
        (x as nat) < n,
        marks[x as int],
        connected(edges, x, y),
    ensures
        (y as nat) < n,
        marks[y as int],
{
    let vs = choose|vs: Seq<usize>| path_between(edges, vs, x, y);
    lemma_path_stays_marked(edges, marks, n, vs);
}

/// Setting a cleared position raises the count of set positions by one.
proof fn lemma_occ_set_true(s: Seq<bool>, i: int)
    requires
        0 <= i < s.len(),
        !s[i],
    ensures
        occ(s.update(i, true), true) == occ(s, true) + 1,
    decreases s.len(),
{
    if i == s.len() - 1 {
        assert(s.update(i, true).drop_last() =~= s.drop_last());
        assert(s.update(i, true).last());
    } else {
        lemma_occ_set_true(s.drop_last(), i);
        assert(s.update(i, true).drop_last() =~= s.drop_last().update(i, true));
        assert(s.update(i, true).last() == s.last());
    }
}

/// Marks every entity reachable from `start` through `edges`: position `i` of
/// the result tells whether `start` and `i` are connected. The marking is
/// saturated: marks spread across pairs until no pair crosses the boundary.
pub fn component_of(n: usize, edges: &Vec<Pair>, start: usize) -> (marks: Vec<bool>)
    requires
        start < n,
        all_pairs_valid(edges@, n as nat),
    ensures
        marks@.len() == n,
        forall|i: usize| i < n ==> marks@[i as int] == connected(edges@, start, i),
{
    let mut marks: Vec<bool> = Vec::new();
    let mut i: usize = 0;
    while i < n
        invariant
            i <= n,
            marks@.len() == i,
            forall|j: int| 0 <= j < i ==> !marks@[j],
        decreases n - i,
    {
        marks.push(false);
        i += 1;
    }
    proof {
        lemma_connected_refl(edges@, start);
        lemma_occ_le_len(marks@.update(start as int, true), true);
    }
    marks.set(start, true);
    loop
        invariant_except_break
            marks@.len() == n,
            start < n,
            marks@[start as int],
            all_pairs_valid(edges@, n as nat),
            occ(marks@, true) <= n,
            forall|j: usize| j < n && marks@[j as int] ==> connected(edges@, start, j),
        ensures
            marks@.len() == n,
            marks@[start as int],
            forall|j: usize| j < n && marks@[j as int] ==> connected(edges@, start, j),
            marks_closed(edges@, marks@),
        decreases n - occ(marks@, true),
    {
        let ghost marks0 = marks@;
        let mut changed = false;
        let mut k: usize = 0;
        while k < edges.len()
            invariant
                k <= edges.len(),
                marks@.len() == n,
                start < n,
                marks@[start as int],
                all_pairs_valid(edges@, n as nat),
                occ(marks@, true) <= n,
                forall|j: usize| j < n && marks@[j as int] ==> connected(edges@, start, j),
                !changed ==> marks@ == marks0,
                !changed ==> forall|j: int|
                    0 <= j < k ==> edge_respects_marks(marks@, #[trigger] edges@[j]),
                changed ==> occ(marks@, true) > occ(marks0, true),
            decreases edges.len() - k,
        {
            let e = edges[k];
            proof {
                assert(edges@[k as int].valid(n as nat));
            }
            if marks[e.a] && !marks[e.b] {
                let ghost mpre = marks@;
                proof {
                    lemma_occ_set_true(mpre, e.b as int);
                    lemma_occ_le_len(mpre.update(e.b as int, true), true);
                    assert(edges@[k as int].same_unordered(Pair { a: e.a, b: e.b }));
                    assert(edge_step(edges@, e.a, e.b));
                    lemma_edge_connected(edges@, e.a, e.b);
                    lemma_connected_trans(edges@, start, e.a, e.b);
                }
                marks.set(e.b, true);
                changed = true;
            } else if marks[e.b] && !marks[e.a] {
                let ghost mpre = marks@;
                proof {
                    lemma_occ_set_true(mpre, e.a as int);
                    lemma_occ_le_len(mpre.update(e.a as int, true), true);
                    assert(edges@[k as int].same_unordered(Pair { a: e.b, b: e.a }));
                    assert(edge_step(edges@, e.b, e.a));
                    lemma_edge_connected(edges@, e.b, e.a);
                    lemma_connected_trans(edges@, start, e.b, e.a);
                }
                marks.set(e.a, true);
                changed = true;
            } else {
                proof {
                    assert(edge_respects_marks(marks@, edges@[k as int]));
                }
            }
            k += 1;
        }
        if !changed {
            break;
        }
    }
    proof {
        assert forall|i: usize| i < n implies marks@[i as int] == connected(edges@, start, i) by {
            if connected(edges@, start, i) {
                lemma_closed_marks_cover(edges@, marks@, n as nat, start, i);
            }
        }
    }
    marks
}

/// `r` is the least entity connected to `i`.
pub open spec fn is_least_connected(edges: Seq<Pair>, i: usize, r: usize) -> bool {
    connected(edges, i, r) && forall|m: usize| m < r ==> !connected(edges, i, m)
}

proof fn lemma_least_reps_agree(edges: Seq<Pair>, i: usize, j: usize, ri: usize, rj: usize)
    requires
        is_least_connected(edges, i, ri),
        is_least_connected(edges, j, rj),
    ensures
        (ri == rj) <==> connected(edges, i, j),
{
    if connected(edges, i, j) {
        lemma_connected_sym(edges, i, j);
        lemma_connected_trans(edges, j, i, ri);
        lemma_connected_trans(edges, i, j, rj);
        if ri < rj {
            assert(!connected(edges, j, ri));
            assert(false);
        }
        if rj < ri {
            assert(!connected(edges, i, rj));
            assert(false);
        }
    }
    if ri == rj {
        lemma_connected_sym(edges, j, rj);
        lemma_connected_trans(edges, i, ri, j);
    }
}

/// Labels each entity with the least entity of its group: two entities carry
/// the same label exactly when they are connected through `edges`.
pub fn connected_components(n: usize, edges: &Vec<Pair>) -> (labels: Vec<usize>)
    requires
        all_pairs_valid(edges@, n as nat),
    ensures
        labels@.len() == n,
        forall|i: usize| i < n ==> labels@[i as int] <= i,
        forall|i: usize|
            i < n ==> is_least_connected(edges@, i, #[trigger] labels@[i as int]),
        forall|i: usize, j: usize|
            i < n && j < n ==> (labels@[i as int] == labels@[j as int] <==> connected(
                edges@,
                i,
                j,
            )),
{
    let mut labels: Vec<usize> = Vec::new();
    let mut i: usize = 0;
    while i < n
        invariant
            i <= n,
            labels@.len() == i,
            all_pairs_valid(edges@, n as nat),
            forall|t: usize| t < i ==> labels@[t as int] <= t,
            forall|t: usize|
                t < i ==> is_least_connected(edges@, t, #[trigger] labels@[t as int]),
        decreases n - i,
    {
        let marks = component_of(n, edges, i);
        proof {
            lemma_connected_refl(edges@, i);
        }
        let mut r: usize = 0;
        while !marks[r]
            invariant
                r <= i < n,
                marks@.len() == n,
                marks@[i as int],
                forall|m: int| 0 <= m < r ==> !marks@[m],
                forall|t: usize| t < n ==> marks@[t as int] == connected(edges@, i, t),
            decreases i - r,
        {
            r += 1;
        }
        proof {
            assert(connected(edges@, i, r));
            assert forall|m: usize| m < r implies !connected(edges@, i, m) by {
                assert(!marks@[m as int]);
                assert(marks@[m as int] == connected(edges@, i, m));
            }
            assert(is_least_connected(edges@, i, r));
        }
        let ghost labels0 = labels@;
        labels.push(r);
        proof {
            assert forall|t: usize|
                t < i + 1 implies is_least_connected(edges@, t, #[trigger] labels@[t as int]) by {
                if t < i {
                    assert(labels@[t as int] == labels0[t as int]);
                } else {
                    assert(labels@[t as int] == r);
                }
            }
        }
        i += 1;
    }
    proof {
        assert forall|i: usize, j: usize| i < n && j < n implies (labels@[i as int]
            == labels@[j as int] <==> connected(edges@, i, j)) by {
            lemma_least_reps_agree(edges@, i, j, labels@[i as int], labels@[j as int]);
        }
    }
    labels
}

/// How many pairs of `s` include entity `x`.
pub open spec fn spec_connection_count(s: Seq<Pair>, x: usize) -> nat
    decreases s.len(),
{
    if s.len() == 0 {
        0
    } else {
        spec_connection_count(s.drop_last(), x) + (if s.last().touches(x) {
            1nat
        } else {
            0nat
        })
    }
}

/// Counts the answered pairs touching entity `x`: the adaptive scheduling
/// priority signal, lower meaning less confidently rated.
pub fn connection_count(answered: &Vec<Pair>, x: usize) -> (r: usize)
    ensures
        r == spec_connection_count(answered@, x),
{
    let mut r: usize = 0;
    let mut k: usize = 0;
    while k < answered.len()
        invariant
            k <= answered.len(),
            r <= k,
            r == spec_connection_count(answered@.subrange(0, k as int), x),
        decreases answered.len() - k,
    {
        let p = answered[k];
        proof {
            assert(answered@.subrange(0, k as int + 1).drop_last() =~= answered@.subrange(
                0,
                k as int,
            ));
            assert(answered@.subrange(0, k as int + 1).last() == answered@[k as int]);
        }
        if p.a == x || p.b == x {
            r += 1;
        }
        k += 1;
    }
    proof {
        assert(answered@.subrange(0, answered@.len() as int) =~= answered@);
    }
    r
}

/// The scheduling priority of a pair: the mean of its two ends' connection
/// counts, rounded down.
pub open spec fn spec_link_count(answered: Seq<Pair>, p: Pair) -> int {
    (spec_connection_count(answered, p.a) + spec_connection_count(answered, p.b)) as int / 2
}

/// The priority does not depend on the pair's orientation.
pub proof fn lemma_link_count_flip(answered: Seq<Pair>, p: Pair)
    ensures
        spec_link_count(answered, p.flip()) == spec_link_count(answered, p),
{
}

pub fn link_count(answered: &Vec<Pair>, p: Pair) -> (r: usize)
    ensures
        r as int == spec_link_count(answered@, p),
{
    let lc = connection_count(answered, p.a);
    let rc = connection_count(answered, p.b);
    proof {
        assert(lc as int == 2 * (lc as int / 2) + lc as int % 2);
        assert(rc as int == 2 * (rc as int / 2) + rc as int % 2);
        assert(lc as int / 2 <= (usize::MAX as int - 1) / 2);
        assert(rc as int / 2 <= (usize::MAX as int - 1) / 2);
    }
    let r = lc / 2 + rc / 2 + (lc % 2 + rc % 2) / 2;
    proof {
        let s = lc as int + rc as int;
        let w = lc as int / 2 + rc as int / 2;
        let m = lc as int % 2 + rc as int % 2;
        assert(s == 2 * w + m);
        if m >= 2 {
            assert(m == 2);
            assert(s == 2 * (w + 1));
            assert(s / 2 == w + 1);
        } else {
            assert(s / 2 == w);
        }
    }
    r
}

/// A chain of pairs over `order` connects its head to every later entry.
pub proof fn lemma_chain_connects(chain: Seq<Pair>, order: Seq<usize>, k: int)
    requires
        order.len() >= 1,
        chain.len() == order.len() - 1,
        forall|m: int|
            0 <= m < chain.len() ==> (#[trigger] chain[m]) == (Pair {
                a: order[m],
                b: order[m + 1],
            }),
        0 <= k < order.len(),
    ensures
        connected(chain, order[0], order[k]),
    decreases k,
{
    if k == 0 {
        lemma_connected_refl(chain, order[0]);
    } else {
        lemma_chain_connects(chain, order, k - 1);
        assert(chain[k - 1] == (Pair { a: order[k - 1], b: order[k] }));
        assert(chain[k - 1].same_unordered(Pair { a: order[k - 1], b: order[k] }));
        assert(edge_step(chain, order[k - 1], order[k]));
        lemma_edge_connected(chain, order[k - 1], order[k]);
        lemma_connected_trans(chain, order[0], order[k - 1], order[k]);
    }
}

} // verus!
