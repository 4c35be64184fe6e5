//! Walks along a relation between integers, and reachability.

use vstd::prelude::*;

verus! {

/// Whether `p` is a walk of at least one step along `edge`.
pub open spec fn is_walk(edge: spec_fn(int, int) -> bool, p: Seq<int>) -> bool {
    &&& p.len() >= 2
    &&& forall|i: int| 0 <= i < p.len() - 1 ==> #[trigger] edge(p[i], p[i + 1])
}

/// Whether `b` can be reached from `a` in one or more steps along `edge`.
pub open spec fn reaches(edge: spec_fn(int, int) -> bool, a: int, b: int) -> bool {
    exists|p: Seq<int>| #[trigger] is_walk(edge, p) && p[0] == a && p.last() == b
}

/// Whether no node reaches itself along `edge`.
pub open spec fn acyclic(edge: spec_fn(int, int) -> bool) -> bool {
    forall|v: int| !#[trigger] reaches(edge, v, v)
}

/// A sequence of indices, as integers.
pub open spec fn as_ints(s: Seq<usize>) -> Seq<int> {
    s.map_values(|x: usize| x as int)
}

/// A sequence of distinct integers in `[0, n)` has at most `n` items.
pub proof fn lemma_distinct_below(p: Seq<int>, n: int)
    requires
        0 <= n,
        p.no_duplicates(),
        forall|i: int| 0 <= i < p.len() ==> 0 <= #[trigger] p[i] < n,
    ensures
        p.len() <= n,
{
    p.unique_seq_to_set();
    vstd::set_lib::lemma_int_range(0, n);
    assert(p.to_set().subset_of(vstd::set_lib::set_int_range(0, n)));
    vstd::set_lib::lemma_len_subset(p.to_set(), vstd::set_lib::set_int_range(0, n));
}

/// A walk to `m` extends by an edge from `m`.
pub proof fn lemma_walk_extend(e: spec_fn(int, int) -> bool, a: int, m: int, b: int)
    requires
        reaches(e, a, m),
        e(m, b),
    ensures
        reaches(e, a, b),
{
    let p = choose|p: Seq<int>| #[trigger] is_walk(e, p) && p[0] == a && p.last() == m;
    let q = p.push(b);
    assert forall|i: int| 0 <= i < q.len() - 1 implies #[trigger] e(q[i], q[i + 1]) by {
        if i < p.len() - 1 {
            assert(e(p[i], p[i + 1]));
        }
    }
    assert(is_walk(e, q));
}

/// One edge is a walk.
pub proof fn lemma_edge_reaches(e: spec_fn(int, int) -> bool, a: int, b: int)
    requires
        e(a, b),
    ensures
        reaches(e, a, b),
{
    let q = seq![a, b];
    assert(e(q[0], q[1]));
    assert(is_walk(e, q));
}

/// A set closed under `e` that holds every successor of `a` holds every node
/// reachable from `a`.
pub proof fn lemma_closed_holds_reach(e: spec_fn(int, int) -> bool, a: int, s: spec_fn(int) -> bool, b: int)
    requires
        forall|y: int| #[trigger] e(a, y) ==> s(y),
        forall|x: int, y: int| s(x) && #[trigger] e(x, y) ==> s(y),
        reaches(e, a, b),
    ensures
        s(b),
{
    let p = choose|p: Seq<int>| #[trigger] is_walk(e, p) && p[0] == a && p.last() == b;
    assert(is_walk(e, p));
    assert(e(p[0], p[0int + 1]));
    assert(s(p[1]));
    lemma_walk_stays(e, p, s, p.len() - 1);
}

/// Every node after the first along a walk lies in a set closed under the
/// edges that holds the walk's second node.
proof fn lemma_walk_stays(e: spec_fn(int, int) -> bool, p: Seq<int>, s: spec_fn(int) -> bool, i: int)
    requires
        is_walk(e, p),
        s(p[1]),
        forall|x: int, y: int| s(x) && #[trigger] e(x, y) ==> s(y),
        1 <= i < p.len(),
    ensures
        s(p[i]),
    decreases i,
{
    if i > 1 {
        lemma_walk_stays(e, p, s, i - 1);
        assert(e(p[i - 1], p[i - 1 + 1]));
    }
}


} // verus!
