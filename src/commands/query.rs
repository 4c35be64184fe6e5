use vstd::prelude::*;
use crate::graph::DependencyGraph;
use crate::graph::{affected_names, affected_nodes, declared, index_of, owners_of, views_of};
use crate::node::{Node, NodeView, strings_view};

verus! {

/// The affected nodes as full records (see `DependencyGraph::get_affected_nodes`).
pub fn get_affected_nodes(graph: &DependencyGraph, changed_files: &Vec<String>) -> (r: Vec<Node>)
    requires
        graph.wf(),
    ensures
        views_of(r@).no_duplicates(),
        views_of(r@).to_set() == affected_nodes(graph@, owners_of(graph@, strings_view(changed_files@))),
{
    let ghost ns = graph@;
    let ghost owners = owners_of(graph@, strings_view(changed_files@));
    let names = graph.get_affected_nodes(changed_files);
    proof {
        graph.lemma_names_unique();
    }
    let mut r: Vec<Node> = Vec::new();
    let mut t: usize = 0;
    while t < names.len()
        invariant
            graph.wf(),
            ns == graph@,
            crate::graph::unique_names(ns),
            strings_view(names@).no_duplicates(),
            strings_view(names@).to_set() == affected_names(ns, owners),
            t <= names@.len(),
            r@.len() == t,
            forall|x: int| 0 <= x < t ==> (#[trigger] r@[x])@ == ns[index_of(ns, names@[x]@)] && ns[index_of(ns, names@[x]@)].name == names@[x]@,
        decreases names.len() - t,
    {
        assert(strings_view(names@).to_set().contains(strings_view(names@)[t as int]));
        assert(strings_view(names@)[t as int] == names@[t as int]@);
        let ghost s = names@[t as int]@;
        assert(affected_names(ns, owners).contains(s));
        let ghost j = choose|j: int| 0 <= j < ns.len() && #[trigger] ns[j].name == s && (owners[j]
            || exists|i: int| 0 <= i < ns.len() && owners[i] && #[trigger] crate::walk::reaches(crate::graph::dep_rel(ns), i, j));
        assert(declared(ns, s));
        match graph.get_node(names[t].as_str()) {
            Some(n) => {
                proof {
                    let c = index_of(ns, s);
                    assert(ns[c].name == s);
                    assert(n@ == ns[c]);
                }
                let ghost before = r@;
                r.push(n.duplicate());
                proof {
                    assert forall|x: int| 0 <= x < t + 1 implies (#[trigger] r@[x])@ == ns[index_of(ns, names@[x]@)]
                        && ns[index_of(ns, names@[x]@)].name == names@[x]@ by {
                        if x < t {
                            assert(r@[x] == before[x]);
                        }
                    }
                }
            },
            None => {
                assert(false);
            },
        }
        t += 1;
    }
    proof {
        let vs = views_of(r@);
        let target = affected_nodes(ns, owners);
        assert forall|x: int, y: int| 0 <= x < vs.len() && 0 <= y < vs.len() && x != y implies vs[x] != vs[y] by {
            assert(strings_view(names@)[x] != strings_view(names@)[y]);
            assert(vs[x] == r@[x]@);
            assert(vs[y] == r@[y]@);
        }
        assert forall|v: NodeView| #[trigger] vs.to_set().contains(v) <==> target.contains(v) by {
            if vs.to_set().contains(v) {
                let x = choose|x: int| 0 <= x < vs.len() && vs[x] == v;
                assert(vs[x] == r@[x]@);
                let c = index_of(ns, names@[x]@);
                assert(strings_view(names@).to_set().contains(strings_view(names@)[x]));
                assert(strings_view(names@)[x] == names@[x]@);
                assert(affected_names(ns, owners).contains(names@[x]@));
                let j = choose|j: int| 0 <= j < ns.len() && #[trigger] ns[j].name == names@[x]@ && (owners[j]
                    || exists|i: int| 0 <= i < ns.len() && owners[i] && #[trigger] crate::walk::reaches(crate::graph::dep_rel(ns), i, j));
                assert(0 <= c < ns.len()) by {
                    assert(ns[j].name == names@[x]@);
                }
                assert(v == ns[c] && affected_names(ns, owners).contains(ns[c].name));
            }
            if target.contains(v) {
                let j = choose|j: int| 0 <= j < ns.len() && v == #[trigger] ns[j] && affected_names(ns, owners).contains(ns[j].name);
                assert(strings_view(names@).to_set().contains(ns[j].name));
                let x = choose|x: int| 0 <= x < strings_view(names@).len() && strings_view(names@)[x] == ns[j].name;
                assert(strings_view(names@)[x] == names@[x]@);
                let c = index_of(ns, names@[x]@);
                assert(ns[c].name == ns[j].name);
                assert(c == j);
                assert(vs[x] == r@[x]@);
                assert(vs[x] == v);
            }
        }
        assert(vs.to_set() =~= target);
    }
    r
}

} // verus!
