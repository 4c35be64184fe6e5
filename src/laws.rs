//! Properties of graph construction and traversal, stated over the models
//! that the operations' contracts use.

use vstd::prelude::*;
use crate::graph::{build_succeeds, declared, dep_rel, downstream, first_missing, first_repeat, has_missing, has_repeat, index_of, missing_at, repeats_at, unique_names, upstream};
use crate::node::NodeView;
use crate::walk::{acyclic, reaches};

verus! {

/// Some node is the first to repeat a name, at or before any that does.
proof fn lemma_first_repeat_exists(ns: Seq<NodeView>, j: int)
    requires
        repeats_at(ns, j),
    ensures
        exists|f: int| #[trigger] first_repeat(ns, f) && f <= j,
    decreases j,
{
    if exists|k: int| 0 <= k < j && #[trigger] repeats_at(ns, k) {
        let k = choose|k: int| 0 <= k < j && #[trigger] repeats_at(ns, k);
        lemma_first_repeat_exists(ns, k);
    } else {
        assert(first_repeat(ns, j));
    }
}

/// For declarations with unique names, resolvable dependencies and no cycle,
/// building succeeds, with or without cycle tolerance, and every declared
/// name leads to its node while no other name leads anywhere.
pub proof fn lemma_valid_declarations_build(ns: Seq<NodeView>, allow_cyclical: bool)
    requires
        unique_names(ns),
        forall|i: int, k: int| 0 <= i < ns.len() && 0 <= k < ns[i].dependencies.len()
            ==> declared(ns, #[trigger] ns[i].dependencies[k]),
        acyclic(dep_rel(ns)),
    ensures
        build_succeeds(ns, allow_cyclical),
        forall|i: int| 0 <= i < ns.len() ==> declared(ns, #[trigger] ns[i].name) && ns[index_of(ns, ns[i].name)] == ns[i],
        forall|s: Seq<char>| !(exists|i: int| 0 <= i < ns.len() && #[trigger] ns[i].name == s) ==> !declared(ns, s),
{
    assert forall|i: int| #[trigger] repeats_at(ns, i) implies false by {
        let j = choose|j: int| 0 <= j < i && #[trigger] ns[j].name == ns[i].name;
    }
    assert forall|i: int, k: int| #[trigger] missing_at(ns, i, k) implies false by {
        assert(declared(ns, ns[i].dependencies[k]));
    }
    assert forall|i: int| 0 <= i < ns.len() implies declared(ns, #[trigger] ns[i].name) && ns[index_of(ns, ns[i].name)] == ns[i] by {
        assert(ns[i].name == ns[i].name);
        let c = index_of(ns, ns[i].name);
        assert(ns[c].name == ns[i].name);
    }
}

/// When every repeated name among the declarations is `s`, and some name
/// repeats, building fails with `DuplicateNodeName` carrying `s`.
pub proof fn lemma_repeated_name_reported(ns: Seq<NodeView>, i: int, j: int, s: Seq<char>)
    requires
        0 <= i < j < ns.len(),
        ns[i].name == ns[j].name,
        forall|a: int, b: int| 0 <= a < b < ns.len() && #[trigger] ns[a].name == #[trigger] ns[b].name ==> ns[a].name == s,
    ensures
        has_repeat(ns),
        forall|f: int| #[trigger] first_repeat(ns, f) ==> ns[f].name == s,
        exists|f: int| #[trigger] first_repeat(ns, f),
{
    assert(repeats_at(ns, j));
    lemma_first_repeat_exists(ns, j);
    assert forall|f: int| #[trigger] first_repeat(ns, f) implies ns[f].name == s by {
        let k = choose|k: int| 0 <= k < f && #[trigger] ns[k].name == ns[f].name;
        assert(ns[k].name == ns[f].name);
    }
}

/// When names are unique and every undeclared dependency is `d`, and some
/// node names `d`, building fails with `MissingDependency` reporting `d`.
pub proof fn lemma_missing_dependency_reported(ns: Seq<NodeView>, i: int, k: int)
    requires
        !has_repeat(ns),
        missing_at(ns, i, k),
        forall|i2: int, k2: int| #[trigger] missing_at(ns, i2, k2) ==> ns[i2].dependencies[k2] == ns[i].dependencies[k],
    ensures
        has_missing(ns),
        !build_succeeds(ns, true),
        forall|i2: int, k2: int| #[trigger] first_missing(ns, i2, k2) ==> ns[i2].dependencies[k2] == ns[i].dependencies[k],
{
}

/// On declarations that otherwise build, a dependency cycle makes building
/// fail without cycle tolerance and succeed with it.
pub proof fn lemma_cycle_needs_tolerance(ns: Seq<NodeView>, v: int)
    requires
        !has_repeat(ns),
        !has_missing(ns),
        reaches(dep_rel(ns), v, v),
    ensures
        !build_succeeds(ns, false),
        build_succeeds(ns, true),
{
}

/// Upstream and downstream are inverse: node `j` depends transitively on
/// node `i` exactly when node `i` is upstream of node `j`.
pub proof fn lemma_upstream_downstream_inverse(ns: Seq<NodeView>, i: int, j: int)
    requires
        unique_names(ns),
        0 <= i < ns.len(),
        0 <= j < ns.len(),
    ensures
        downstream(ns, ns[i].name).contains(ns[j]) <==> upstream(ns, ns[j].name).contains(ns[i]),
{
    assert(declared(ns, ns[i].name) && declared(ns, ns[j].name)) by {
        assert(ns[i].name == ns[i].name);
        assert(ns[j].name == ns[j].name);
    }
    let ci = index_of(ns, ns[i].name);
    let cj = index_of(ns, ns[j].name);
    assert(ns[ci].name == ns[i].name && ns[cj].name == ns[j].name);
    assert(ci == i && cj == j);
    if downstream(ns, ns[i].name).contains(ns[j]) {
        let j2 = choose|j2: int| 0 <= j2 < ns.len() && #[trigger] reaches(dep_rel(ns), ci, j2) && ns[j] == ns[j2];
        assert(ns[j2].name == ns[j].name);
        assert(reaches(dep_rel(ns), i, j));
    }
    if upstream(ns, ns[j].name).contains(ns[i]) {
        let i2 = choose|i2: int| 0 <= i2 < ns.len() && #[trigger] reaches(dep_rel(ns), i2, cj) && ns[i] == ns[i2];
        assert(ns[i2].name == ns[i].name);
        assert(reaches(dep_rel(ns), i, j));
    }
}


} // verus!
