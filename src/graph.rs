use vstd::prelude::*;
use crate::node::{Node, NodeView, node_includes};
use crate::walk::{acyclic, as_ints, is_walk, lemma_closed_holds_reach, lemma_distinct_below, lemma_edge_reaches, lemma_walk_extend, reaches};

verus! {

/// The edge relation of a list of node declarations: `a -> b` when node `b`
/// names node `a` as a dependency.
pub open spec fn dep_edge(ns: Seq<NodeView>, a: int, b: int) -> bool {
    &&& 0 <= a < ns.len()
    &&& 0 <= b < ns.len()
    &&& ns[b].dependencies.contains(ns[a].name)
}

/// `dep_edge` as a relation.
pub open spec fn dep_rel(ns: Seq<NodeView>) -> spec_fn(int, int) -> bool {
    |a: int, b: int| dep_edge(ns, a, b)
}

/// The relation described by a list of index pairs.
pub open spec fn pair_rel(edges: Seq<(usize, usize)>) -> spec_fn(int, int) -> bool {
    |a: int, b: int| exists|m: int| 0 <= m < edges.len() && #[trigger] edges[m] == (a as usize, b as usize) && a >= 0 && b >= 0 && a <= usize::MAX && b <= usize::MAX
}

/// The names of the declarations, in order.
pub open spec fn names_of(ns: Seq<NodeView>) -> Seq<Seq<char>> {
    ns.map_values(|n: NodeView| n.name)
}

/// Whether some declaration has the name `s`.
pub open spec fn declared(ns: Seq<NodeView>, s: Seq<char>) -> bool {
    exists|j: int| 0 <= j < ns.len() && #[trigger] ns[j].name == s
}

/// Whether no two declarations share a name.
pub open spec fn unique_names(ns: Seq<NodeView>) -> bool {
    forall|i: int, j: int| 0 <= i < ns.len() && 0 <= j < ns.len() && #[trigger] ns[i].name == #[trigger] ns[j].name ==> i == j
}

/// Node `i` repeats the name of an earlier node.
pub open spec fn repeats_at(ns: Seq<NodeView>, i: int) -> bool {
    0 <= i < ns.len() && exists|j: int| 0 <= j < i && #[trigger] ns[j].name == ns[i].name
}

/// Node `i` is the first to repeat an earlier name.
pub open spec fn first_repeat(ns: Seq<NodeView>, i: int) -> bool {
    repeats_at(ns, i) && forall|k: int| 0 <= k < i ==> !#[trigger] repeats_at(ns, k)
}

/// Whether some name is declared twice.
pub open spec fn has_repeat(ns: Seq<NodeView>) -> bool {
    exists|i: int| #[trigger] repeats_at(ns, i)
}

/// Dependency `k` of node `i` names no declared node.
pub open spec fn missing_at(ns: Seq<NodeView>, i: int, k: int) -> bool {
    &&& 0 <= i < ns.len()
    &&& 0 <= k < ns[i].dependencies.len()
    &&& !declared(ns, ns[i].dependencies[k])
}

/// `(i, k)` is the first unresolvable dependency, in declaration order.
pub open spec fn first_missing(ns: Seq<NodeView>, i: int, k: int) -> bool {
    &&& missing_at(ns, i, k)
    &&& forall|i2: int, k2: int| #[trigger] missing_at(ns, i2, k2) ==> i < i2 || (i == i2 && k <= k2)
}

/// Whether some dependency names no declared node.
pub open spec fn has_missing(ns: Seq<NodeView>) -> bool {
    exists|i: int, k: int| #[trigger] missing_at(ns, i, k)
}

/// Whether building a graph from `ns` succeeds: names are unique, every
/// dependency is declared, and, unless cycles are allowed, there is no cycle.
pub open spec fn build_succeeds(ns: Seq<NodeView>, allow_cyclical: bool) -> bool {
    !has_repeat(ns) && !has_missing(ns) && (allow_cyclical || acyclic(dep_rel(ns)))
}

/// The items of `s` with `sep` between each two.
pub open spec fn joined(s: Seq<Seq<char>>, sep: Seq<char>) -> Seq<char>
    decreases s.len(),
{
    if s.len() == 0 {
        Seq::empty()
    } else if s.len() == 1 {
        s[0]
    } else {
        joined(s.drop_last(), sep) + sep + s.last()
    }
}

/// A reported cycle: a walk over distinct nodes, that either closes on its
/// first node or stops at a node with no outgoing edge.
pub open spec fn cycle_witness(ns: Seq<NodeView>, p: Seq<int>) -> bool {
    &&& p.len() >= 1
    &&& p.no_duplicates()
    &&& forall|i: int| 0 <= i < p.len() ==> 0 <= #[trigger] p[i] < ns.len()
    &&& forall|i: int| 0 <= i < p.len() - 1 ==> dep_edge(ns, #[trigger] p[i], p[i + 1])
    &&& dep_edge(ns, p.last(), p[0]) || forall|b: int| !#[trigger] dep_edge(ns, p.last(), b)
}

/// The names of the nodes at the indices in `p`.
pub open spec fn cycle_names(ns: Seq<NodeView>, p: Seq<int>) -> Seq<Seq<char>> {
    p.map_values(|i: int| ns[i].name)
}

/// The views of a sequence of nodes.
pub open spec fn views_of(v: Seq<Node>) -> Seq<NodeView> {
    v.map_values(|n: Node| n@)
}

/// Why a dependency graph could not be built.
#[derive(Debug)]
pub enum DependencyGraphCreationError {
    /// Two nodes share this name.
    DuplicateNodeName(String),
    /// The dependency (first) named by a node (second) is not declared; the
    /// third field lists every declared name, separated by ", ".
    MissingDependency(String, String, String),
    /// The dependencies form a cycle: the names along it joined by " -> ",
    /// and the name it starts from.
    CircularDependency(String, String),
}

/// A validated dependency graph. Vertex `i` is the `i`-th declared node; an
/// edge `(a, b)` means that node `b` depends on node `a`.
#[derive(Debug)]
pub struct DependencyGraph {
    nodes: Vec<Node>,
    edges: Vec<(usize, usize)>,
}

/// Relies on petgraph's `Graph::from_edges`, which creates one vertex per
/// index up to the largest one named, and on `algo::toposort`, which fails
/// exactly on a graph with a cycle and then reports a node that lies on one.
#[verifier::external_body]
fn find_cycle_node(edges: &Vec<(usize, usize)>) -> (r: Option<usize>)
    ensures
        r is None <==> acyclic(pair_rel(edges@)),
        r matches Some(v) ==> reaches(pair_rel(edges@), v as int, v as int),
{
    let g = petgraph::graph::DiGraph::<(), (), usize>::from_edges(edges.iter().copied());
    match petgraph::algo::toposort(&g, None) {
        Ok(_) => None,
        Err(cycle) => Some(cycle.node_id().index()),
    }
}

/// The index of the node named `s`, if any.
fn find_name(nodes: &Vec<Node>, s: &String) -> (r: Option<usize>)
    ensures
        r matches Some(j) ==> j < nodes@.len() && nodes@[j as int]@.name == s@,
        r is None ==> !declared(views_of(nodes@), s@),
{
    let mut j: usize = 0;
    while j < nodes.len()
        invariant
            j <= nodes@.len(),
            forall|k: int| 0 <= k < j ==> nodes@[k]@.name != s@,
        decreases nodes.len() - j,
    {
        if nodes[j].name == *s {
            return Some(j);
        }
        j += 1;
    }
    proof {
        let nv = views_of(nodes@);
        assert forall|k: int| 0 <= k < nv.len() implies #[trigger] nv[k].name != s@ by {
            assert(nv[k] == nodes@[k]@);
        }
    }
    None
}

/// The items of `parts` with `sep` between each two.
fn join_strings(parts: &Vec<String>, sep: &str) -> (r: String)
    ensures
        r@ == joined(crate::node::strings_view(parts@), sep@),
{
    let ghost sv = crate::node::strings_view(parts@);
    if parts.len() == 0 {
        return String::new();
    }
    let mut r = parts[0].clone();
    let mut i: usize = 1;
    assert(crate::node::strings_view(parts@.subrange(0, 1)) =~= seq![parts@[0]@]);
    while i < parts.len()
        invariant
            1 <= i <= parts@.len(),
            sv == crate::node::strings_view(parts@),
            r@ == joined(crate::node::strings_view(parts@.subrange(0, i as int)), sep@),
        decreases parts.len() - i,
    {
        let ghost before = crate::node::strings_view(parts@.subrange(0, i as int));
        let ghost after = crate::node::strings_view(parts@.subrange(0, i + 1));
        assert(after.drop_last() =~= before);
        r.append(sep);
        r.append(parts[i].as_str());
        i += 1;
    }
    assert(parts@.subrange(0, i as int) =~= parts@);
    r
}

/// The target of the first edge leaving `v`, if any.
fn first_successor(edges: &Vec<(usize, usize)>, v: usize) -> (r: Option<usize>)
    ensures
        r matches Some(w) ==> pair_rel(edges@)(v as int, w as int),
        r is None ==> forall|b: int| !#[trigger] pair_rel(edges@)(v as int, b),
{
    let mut m: usize = 0;
    while m < edges.len()
        invariant
            m <= edges@.len(),
            forall|k: int| 0 <= k < m ==> (#[trigger] edges@[k]).0 != v,
        decreases edges.len() - m,
    {
        if edges[m].0 == v {
            let w = edges[m].1;
            assert(edges@[m as int] == (v as int as usize, w as int as usize));
            return Some(w);
        }
        m += 1;
    }
    None
}

impl View for DependencyGraph {
    type V = Seq<NodeView>;

    closed spec fn view(&self) -> Seq<NodeView> {
        views_of(self.nodes@)
    }
}

impl DependencyGraph {
    /// The graph's invariant: names are unique, every dependency resolves,
    /// and the edge list holds exactly the dependency relation.
    pub closed spec fn wf(&self) -> bool {
        &&& unique_names(self@)
        &&& !has_missing(self@)
        &&& pair_rel(self.edges@) == dep_rel(self@)
        &&& forall|m: int| 0 <= m < self.edges@.len() ==>
                (#[trigger] self.edges@[m]).0 < self.nodes@.len() && self.edges@[m].1 < self.nodes@.len()
    }

    /// Follows first successors from `start` until a node repeats or a node
    /// without successors is reached; returns the walk from the repeated node on.
    fn trace_cycle(nodes: &Vec<Node>, edges: &Vec<(usize, usize)>, start: usize) -> (r: Vec<usize>)
        requires
            start < nodes@.len(),
            pair_rel(edges@) == dep_rel(views_of(nodes@)),
        ensures
            cycle_witness(views_of(nodes@), as_ints(r@)),
    {
        let ghost nv = views_of(nodes@);
        let n = nodes.len();
        let mut on_path: Vec<bool> = Vec::new();
        let mut i: usize = 0;
        while i < n
            invariant
                i <= n,
                n == nodes@.len(),
                on_path@.len() == i,
                forall|x: int| 0 <= x < i ==> !#[trigger] on_path@[x],
            decreases n - i,
        {
            on_path.push(false);
            i += 1;
        }
        on_path.set(start, true);
        let mut path: Vec<usize> = Vec::new();
        path.push(start);
        let mut cur = start;
        proof {
            assert forall|x: int| 0 <= x < n implies (#[trigger] on_path@[x] <==> path@.contains(x as usize)) by {
                if x == start as int {
                    assert(path@[0] == start);
                }
            }
        }
        loop
            invariant
                n == nodes@.len(),
                nv == views_of(nodes@),
                pair_rel(edges@) == dep_rel(nv),
                on_path@.len() == n,
                1 <= path@.len() <= n,
                cur == path@.last(),
                path@.no_duplicates(),
                forall|k: int| 0 <= k < path@.len() ==> #[trigger] path@[k] < n,
                forall|x: int| 0 <= x < n ==> (#[trigger] on_path@[x] <==> path@.contains(x as usize)),
                forall|k: int| 0 <= k < path@.len() - 1 ==> dep_edge(nv, #[trigger] path@[k] as int, path@[k + 1] as int),
            decreases n - path@.len(),
        {
            match first_successor(edges, cur) {
                None => {
                    proof {
                        let p = as_ints(path@);
                        assert forall|b: int| !#[trigger] dep_edge(nv, p.last(), b) by {
                            assert(dep_rel(nv)(cur as int, b) == pair_rel(edges@)(cur as int, b));
                        }
                        assert forall|k: int| 0 <= k < p.len() - 1 implies dep_edge(nv, #[trigger] p[k], p[k + 1]) by {
                            assert(dep_edge(nv, path@[k] as int, path@[k + 1] as int));
                        }
                        assert(p.no_duplicates());
                    }
                    return path;
                },
                Some(w) => {
                    assert(dep_rel(nv)(cur as int, w as int));
                    assert(w < n);
                    if on_path[w] {
                        let mut q: usize = 0;
                        while q < path.len() && path[q] != w
                            invariant
                                q <= path@.len(),
                                forall|k: int| 0 <= k < q ==> path@[k] != w,
                            decreases path@.len() - q,
                        {
                            q += 1;
                        }
                        if q == path.len() {
                            proof {
                                assert(path@.contains(w));
                                let k = choose|k: int| 0 <= k < path@.len() && path@[k] == w;
                                assert(path@[k] != w);
                            }
                            return path;
                        }
                        let ghost whole = path@;
                        let tail = path.split_off(q);
                        proof {
                            let p = as_ints(tail@);
                            assert(tail@ =~= whole.subrange(q as int, whole.len() as int));
                            assert forall|k: int| 0 <= k < p.len() - 1 implies dep_edge(nv, #[trigger] p[k], p[k + 1]) by {
                                assert(dep_edge(nv, whole[q + k] as int, whole[q + k + 1] as int));
                            }
                            assert forall|k: int| 0 <= k < p.len() implies 0 <= #[trigger] p[k] < nv.len() by {
                                assert(whole[q + k] < n);
                            }
                            assert(p.no_duplicates());
                        }
                        return tail;
                    } else {
                        let ghost before = path@;
                        proof {
                            assert(!before.contains(w));
                            let ext = as_ints(before.push(w));
                            assert forall|a: int, b: int| 0 <= a < ext.len() && 0 <= b < ext.len() && a != b implies ext[a] != ext[b] by {
                                if a < before.len() && b < before.len() {
                                    assert(before[a] != before[b]);
                                } else if a < before.len() {
                                    assert(before.contains(before[a]));
                                } else if b < before.len() {
                                    assert(before.contains(before[b]));
                                }
                            }
                            assert(ext.no_duplicates());
                            assert forall|k: int| 0 <= k < ext.len() implies 0 <= #[trigger] ext[k] < n by {
                                if k < before.len() {
                                    assert(before[k] < n);
                                }
                            }
                            lemma_distinct_below(ext, n as int);
                        }
                        path.push(w);
                        on_path.set(w, true);
                        cur = w;
                        proof {
                            assert forall|x: int| 0 <= x < n implies (#[trigger] on_path@[x] <==> path@.contains(x as usize)) by {
                                if x == w as int {
                                    assert(path@[path@.len() - 1] == w);
                                } else {
                                    if path@.contains(x as usize) {
                                        let k = choose|k: int| 0 <= k < path@.len() && path@[k] == x as usize;
                                        assert(k < before.len());
                                        assert(before[k] == x as usize);
                                    }
                                    if before.contains(x as usize) {
                                        let k = choose|k: int| 0 <= k < before.len() && before[k] == x as usize;
                                        assert(path@[k] == x as usize);
                                    }
                                }
                            }
                        }
                    }
                },
            }
        }
    }

    /// Builds the graph from the declared nodes. In order, and stopping at
    /// the first failure: a repeated name fails with `DuplicateNodeName`; a
    /// dependency that names no declared node fails with `MissingDependency`;
    /// unless `allow_cyclical`, a cycle among the dependencies fails with
    /// `CircularDependency`, reporting a walk found from a node on a cycle.
    pub fn new(nodes: Vec<Node>, allow_cyclical: bool) -> (r: Result<DependencyGraph, DependencyGraphCreationError>)
        ensures
            r is Ok <==> build_succeeds(views_of(nodes@), allow_cyclical),
            r matches Err(DependencyGraphCreationError::DuplicateNodeName(_)) <==> has_repeat(views_of(nodes@)),
            r matches Err(DependencyGraphCreationError::MissingDependency(_, _, _))
                <==> !has_repeat(views_of(nodes@)) && has_missing(views_of(nodes@)),
            match r {
                Ok(g) => {
                    &&& g.wf()
                    &&& g@ == views_of(nodes@)
                    &&& !has_repeat(views_of(nodes@))
                    &&& !has_missing(views_of(nodes@))
                    &&& allow_cyclical || acyclic(dep_rel(views_of(nodes@)))
                },
                Err(DependencyGraphCreationError::DuplicateNodeName(s)) => exists|i: int|
                    first_repeat(views_of(nodes@), i) && s@ == #[trigger] views_of(nodes@)[i].name,
                Err(DependencyGraphCreationError::MissingDependency(d, n, known)) => {
                    &&& !has_repeat(views_of(nodes@))
                    &&& known@ == joined(names_of(views_of(nodes@)), ", "@)
                    &&& exists|i: int, k: int| #[trigger] first_missing(views_of(nodes@), i, k)
                        && d@ == views_of(nodes@)[i].dependencies[k] && n@ == views_of(nodes@)[i].name
                },
                Err(DependencyGraphCreationError::CircularDependency(path, first)) => {
                    &&& !has_repeat(views_of(nodes@))
                    &&& !has_missing(views_of(nodes@))
                    &&& !allow_cyclical
                    &&& !acyclic(dep_rel(views_of(nodes@)))
                    &&& exists|p: Seq<int>| #[trigger] cycle_witness(views_of(nodes@), p)
                        && path@ == joined(cycle_names(views_of(nodes@), p), " -> "@)
                        && first@ == views_of(nodes@)[p[0]].name
                },
            },
    {
        let ghost nv = views_of(nodes@);
        let n = nodes.len();
        // Duplicate names.
        let mut i: usize = 0;
        while i < n
            invariant
                i <= n,
                n == nodes@.len(),
                nv == views_of(nodes@),
                forall|k: int| 0 <= k < i ==> !#[trigger] repeats_at(nv, k),
            decreases n - i,
        {
            let mut j: usize = 0;
            while j < i
                invariant
                    j <= i < n,
                    n == nodes@.len(),
                    nv == views_of(nodes@),
                    forall|k: int| 0 <= k < j ==> nv[k].name != nv[i as int].name,
                    forall|k: int| 0 <= k < i ==> !#[trigger] repeats_at(nv, k),
                decreases i - j,
            {
                assert(nv[j as int] == nodes@[j as int]@ && nv[i as int] == nodes@[i as int]@);
                if nodes[j].name == nodes[i].name {
                    assert(nv[j as int].name == nv[i as int].name);
                    assert(repeats_at(nv, i as int));
                    assert(first_repeat(nv, i as int));
                    return Err(DependencyGraphCreationError::DuplicateNodeName(nodes[i].name.clone()));
                }
                j += 1;
            }
            assert(!repeats_at(nv, i as int));
            i += 1;
        }
        proof {
            assert forall|a: int, b: int| 0 <= a < nv.len() && 0 <= b < nv.len() && #[trigger] nv[a].name == #[trigger] nv[b].name implies a == b by {
                if a < b {
                    assert(repeats_at(nv, b));
                } else if b < a {
                    assert(repeats_at(nv, a));
                }
            }
            assert(!has_repeat(nv));
        }
        // Edges, dependency -> dependent.
        let mut edges: Vec<(usize, usize)> = Vec::new();
        let mut i: usize = 0;
        while i < n
            invariant
                i <= n,
                n == nodes@.len(),
                nv == views_of(nodes@),
                unique_names(nv),
                !has_repeat(nv),
                forall|m: int| 0 <= m < edges@.len() ==> (#[trigger] edges@[m]).1 < i
                    && dep_edge(nv, edges@[m].0 as int, edges@[m].1 as int),
                forall|a: int, b: int| b < i && #[trigger] dep_edge(nv, a, b) ==> pair_rel(edges@)(a, b),
                forall|i2: int, k2: int| i2 < i ==> !#[trigger] missing_at(nv, i2, k2),
            decreases n - i,
        {
            let deps = &nodes[i].dependencies;
            let mut k: usize = 0;
            while k < deps.len()
                invariant
                    i < n,
                    k <= deps@.len(),
                    n == nodes@.len(),
                    nv == views_of(nodes@),
                    deps@ == nodes@[i as int].dependencies@,
                    unique_names(nv),
                    forall|m: int| 0 <= m < edges@.len() ==> (#[trigger] edges@[m]).1 <= i
                        && dep_edge(nv, edges@[m].0 as int, edges@[m].1 as int),
                    forall|a: int, b: int| b < i && #[trigger] dep_edge(nv, a, b) ==> pair_rel(edges@)(a, b),
                    forall|a: int, k2: int| 0 <= a < n && 0 <= k2 < k && #[trigger] nv[i as int].dependencies[k2] == #[trigger] nv[a].name
                        ==> pair_rel(edges@)(a, i as int),
                    forall|i2: int, k2: int| i2 < i ==> !#[trigger] missing_at(nv, i2, k2),
                    forall|k2: int| 0 <= k2 < k ==> !#[trigger] missing_at(nv, i as int, k2),
                decreases deps.len() - k,
            {
                assert(nv[i as int].dependencies[k as int] == deps@[k as int]@);
                match find_name(&nodes, &deps[k]) {
                    Some(a) => {
                        let ghost old_edges = edges@;
                        edges.push((a, i));
                        proof {
                            assert(nv[i as int].dependencies.contains(nv[a as int].name));
                            assert(edges@[old_edges.len() as int] == (a as int as usize, i as int as usize));
                            assert forall|a2: int, b2: int| #[trigger] pair_rel(old_edges)(a2, b2) implies pair_rel(edges@)(a2, b2) by {
                                let m = choose|m: int| 0 <= m < old_edges.len() && #[trigger] old_edges[m] == (a2 as usize, b2 as usize)
                                    && a2 >= 0 && b2 >= 0 && a2 <= usize::MAX && b2 <= usize::MAX;
                                assert(edges@[m] == old_edges[m]);
                            }
                            assert forall|a2: int, k2: int| 0 <= a2 < n && 0 <= k2 < k + 1 && #[trigger] nv[i as int].dependencies[k2] == #[trigger] nv[a2].name
                                implies pair_rel(edges@)(a2, i as int) by {
                                if k2 == k {
                                    assert(a2 == a);
                                }
                            }
                        }
                    },
                    None => {
                        let ghost missing_k = k as int;
                        proof {
                            assert(missing_at(nv, i as int, missing_k));
                            assert forall|i2: int, k2: int| #[trigger] missing_at(nv, i2, k2) implies i < i2 || (i == i2 && k <= k2) by {
                                if i2 < i {
                                    assert(!missing_at(nv, i2, k2));
                                } else if i2 == i && k2 < k {
                                    assert(!missing_at(nv, i2, k2));
                                }
                            }
                            assert(first_missing(nv, i as int, missing_k));
                        }
                        let names = Self::names(&nodes);
                        let known = join_strings(&names, ", ");
                        return Err(DependencyGraphCreationError::MissingDependency(
                            deps[k].clone(),
                            nodes[i].name.clone(),
                            known,
                        ));
                    },
                }
                k += 1;
            }
            proof {
                assert forall|a: int, b: int| b < i + 1 && #[trigger] dep_edge(nv, a, b) implies pair_rel(edges@)(a, b) by {
                    if b == i {
                        let k2 = choose|k2: int| 0 <= k2 < nv[b].dependencies.len() && nv[b].dependencies[k2] == nv[a].name;
                        assert(nv[i as int].dependencies[k2] == nv[a].name);
                    }
                }
                assert forall|i2: int, k2: int| i2 < i + 1 implies !#[trigger] missing_at(nv, i2, k2) by {
                    if i2 == i && 0 <= k2 < deps@.len() {
                        assert(!missing_at(nv, i as int, k2));
                    }
                }
            }
            i += 1;
        }
        proof {
            assert forall|a: int, b: int| #[trigger] pair_rel(edges@)(a, b) == dep_rel(nv)(a, b) by {
                if pair_rel(edges@)(a, b) {
                    let m = choose|m: int| 0 <= m < edges@.len() && #[trigger] edges@[m] == (a as usize, b as usize)
                        && a >= 0 && b >= 0 && a <= usize::MAX && b <= usize::MAX;
                    assert(dep_edge(nv, edges@[m].0 as int, edges@[m].1 as int));
                }
                if dep_edge(nv, a, b) {
                    assert(pair_rel(edges@)(a, b));
                }
            }
            assert(pair_rel(edges@) =~= dep_rel(nv));
            assert(!has_missing(nv));
        }
        // Cycles.
        if !allow_cyclical {
            match find_cycle_node(&edges) {
                None => {},
                Some(v) => {
                    proof {
                        assert(reaches(dep_rel(nv), v as int, v as int));
                        let p = choose|p: Seq<int>| #[trigger] is_walk(dep_rel(nv), p) && p[0] == v as int && p.last() == v as int;
                        assert(is_walk(dep_rel(nv), p));
                        assert(dep_rel(nv)(p[0int], p[0int + 1]));
                    }
                    let path = Self::trace_cycle(&nodes, &edges, v);
                    let names = Self::path_names(&nodes, &path);
                    let first = names[0].clone();
                    let joined_names = join_strings(&names, " -> ");
                    proof {
                        let p = as_ints(path@);
                        assert(cycle_witness(nv, p));
                        assert(crate::node::strings_view(names@)[0] == names@[0]@);
                        assert(first@ == nv[p[0]].name);
                        assert(!acyclic(dep_rel(nv)));
                    }
                    return Err(DependencyGraphCreationError::CircularDependency(joined_names, first));
                },
            }
        }
        let g = DependencyGraph { nodes, edges };
        proof {
            assert forall|m: int| 0 <= m < g.edges@.len() implies
                (#[trigger] g.edges@[m]).0 < g.nodes@.len() && g.edges@[m].1 < g.nodes@.len() by {
                assert(dep_edge(nv, edges@[m].0 as int, edges@[m].1 as int));
            }
        }
        Ok(g)
    }

    /// The names of the nodes at the indices in `path`.
    fn path_names(nodes: &Vec<Node>, path: &Vec<usize>) -> (r: Vec<String>)
        requires
            cycle_witness(views_of(nodes@), as_ints(path@)),
        ensures
            crate::node::strings_view(r@) == cycle_names(views_of(nodes@), as_ints(path@)),
            r@.len() >= 1,
    {
        let ghost nv = views_of(nodes@);
        let mut names: Vec<String> = Vec::new();
        let mut t: usize = 0;
        while t < path.len()
            invariant
                t <= path@.len(),
                nv == views_of(nodes@),
                cycle_witness(nv, as_ints(path@)),
                names@.len() == t,
                forall|x: int| 0 <= x < t ==> #[trigger] names@[x]@ == nv[path@[x] as int].name,
            decreases path.len() - t,
        {
            assert(as_ints(path@)[t as int] == path@[t as int] as int);
            names.push(nodes[path[t]].name.clone());
            t += 1;
        }
        assert(crate::node::strings_view(names@) =~= cycle_names(nv, as_ints(path@)));
        names
    }

    /// The names of `nodes`, in order.
    fn names(nodes: &Vec<Node>) -> (r: Vec<String>)
        ensures
            crate::node::strings_view(r@) == names_of(views_of(nodes@)),
    {
        let mut r: Vec<String> = Vec::new();
        let mut i: usize = 0;
        while i < nodes.len()
            invariant
                i <= nodes@.len(),
                r@.len() == i,
                forall|x: int| 0 <= x < i ==> #[trigger] r@[x]@ == nodes@[x]@.name,
            decreases nodes.len() - i,
        {
            r.push(nodes[i].name.clone());
            i += 1;
        }
        assert(crate::node::strings_view(r@) =~= names_of(views_of(nodes@)));
        r
    }
}


/// The edge relation taken forward (`forward`) or backward.
pub open spec fn step_rel(ns: Seq<NodeView>, forward: bool) -> spec_fn(int, int) -> bool {
    |a: int, b: int| if forward { dep_edge(ns, a, b) } else { dep_edge(ns, b, a) }
}

/// The index of the node named `s` (meaningful when `declared(ns, s)`).
pub open spec fn index_of(ns: Seq<NodeView>, s: Seq<char>) -> int {
    choose|i: int| 0 <= i < ns.len() && ns[i].name == s
}

/// The nodes that transitively depend on the node named `s`; empty when no
/// node has that name.
pub open spec fn downstream(ns: Seq<NodeView>, s: Seq<char>) -> Set<NodeView> {
    Set::new(|v: NodeView| declared(ns, s) && exists|j: int|
        0 <= j < ns.len() && #[trigger] reaches(dep_rel(ns), index_of(ns, s), j) && v == ns[j])
}

/// The nodes that the node named `s` transitively depends on; empty when no
/// node has that name.
pub open spec fn upstream(ns: Seq<NodeView>, s: Seq<char>) -> Set<NodeView> {
    Set::new(|v: NodeView| declared(ns, s) && exists|j: int|
        0 <= j < ns.len() && #[trigger] reaches(dep_rel(ns), j, index_of(ns, s)) && v == ns[j])
}

/// Reaching backward is reaching forward from the other end.
proof fn lemma_reverse_reach(ns: Seq<NodeView>, a: int, b: int)
    ensures
        reaches(step_rel(ns, false), a, b) <==> reaches(dep_rel(ns), b, a),
{
    if reaches(step_rel(ns, false), a, b) {
        let p = choose|p: Seq<int>| #[trigger] is_walk(step_rel(ns, false), p) && p[0] == a && p.last() == b;
        let q = p.reverse();
        assert forall|i: int| 0 <= i < q.len() - 1 implies #[trigger] dep_rel(ns)(q[i], q[i + 1]) by {
            let k = p.len() - 2 - i;
            assert(step_rel(ns, false)(p[k], p[k + 1]));
        }
        assert(is_walk(dep_rel(ns), q));
    }
    if reaches(dep_rel(ns), b, a) {
        let p = choose|p: Seq<int>| #[trigger] is_walk(dep_rel(ns), p) && p[0] == b && p.last() == a;
        let q = p.reverse();
        assert forall|i: int| 0 <= i < q.len() - 1 implies #[trigger] step_rel(ns, false)(q[i], q[i + 1]) by {
            let k = p.len() - 2 - i;
            assert(dep_rel(ns)(p[k], p[k + 1]));
        }
        assert(is_walk(step_rel(ns, false), q));
    }
}

proof fn lemma_forward_rel(ns: Seq<NodeView>)
    ensures
        step_rel(ns, true) == dep_rel(ns),
{
    assert(step_rel(ns, true) =~= dep_rel(ns));
}

impl DependencyGraph {
    /// Marks every node reachable from `start` in one or more steps, along
    /// the edges (`forward`) or against them.
    fn reach_marks(&self, start: usize, forward: bool) -> (r: Vec<bool>)
        requires
            self.wf(),
            start < self@.len(),
        ensures
            r@.len() == self@.len(),
            forall|j: int| 0 <= j < self@.len() ==> (#[trigger] r@[j] <==> reaches(step_rel(self@, forward), start as int, j)),
    {
        let ghost nv = self@;
        let ghost e = step_rel(nv, forward);
        let n = self.nodes.len();
        let mut visited: Vec<bool> = Vec::new();
        let mut i: usize = 0;
        while i < n
            invariant
                i <= n,
                visited@.len() == i,
                forall|x: int| 0 <= x < i ==> !#[trigger] visited@[x],
            decreases n - i,
        {
            visited.push(false);
            i += 1;
        }
        let mut queue: Vec<usize> = Vec::new();
        queue.push(start);
        let mut head: usize = 0;
        while head < queue.len()
            invariant
                self.wf(),
                nv == self@,
                n == self.nodes@.len(),
                e == step_rel(nv, forward),
                visited@.len() == n,
                start < n,
                head <= queue@.len() <= n,
                queue@.len() >= 1,
                queue@[0] == start,
                queue@.no_duplicates(),
                forall|q: int| 0 <= q < queue@.len() ==> #[trigger] queue@[q] < n,
                forall|x: int| 0 <= x < n && #[trigger] visited@[x] ==> queue@.contains(x as usize),
                forall|q: int| 0 <= q < queue@.len() ==> #[trigger] queue@[q] == start || visited@[queue@[q] as int],
                forall|x: int| 0 <= x < n && #[trigger] visited@[x] ==> reaches(e, start as int, x),
                forall|q: int, b: int| 0 <= q < head && #[trigger] e(queue@[q] as int, b) ==> visited@[b],
            decreases n - head,
        {
            let idx = queue[head];
            let ghost queue_before = queue@;
            let mut m: usize = 0;
            while m < self.edges.len()
                invariant
                    self.wf(),
                    nv == self@,
                    n == self.nodes@.len(),
                    e == step_rel(nv, forward),
                    visited@.len() == n,
                    start < n,
                    head < queue@.len() <= n,
                    idx == queue@[head as int],
                    queue_before == queue@.subrange(0, queue_before.len() as int),
                    queue_before.len() <= queue@.len(),
                    queue@[0] == start,
                    queue@.no_duplicates(),
                    forall|q: int| 0 <= q < queue@.len() ==> #[trigger] queue@[q] < n,
                    forall|x: int| 0 <= x < n && #[trigger] visited@[x] ==> queue@.contains(x as usize),
                forall|q: int| 0 <= q < queue@.len() ==> #[trigger] queue@[q] == start || visited@[queue@[q] as int],
                    forall|x: int| 0 <= x < n && #[trigger] visited@[x] ==> reaches(e, start as int, x),
                    forall|q: int, b: int| 0 <= q < head && #[trigger] e(queue@[q] as int, b) ==> visited@[b],
                    forall|k: int| 0 <= k < m ==> (forward ==> (#[trigger] self.edges@[k]).0 != idx || visited@[self.edges@[k].1 as int]),
                    forall|k: int| 0 <= k < m ==> (!forward ==> (#[trigger] self.edges@[k]).1 != idx || visited@[self.edges@[k].0 as int]),
                decreases self.edges.len() - m,
            {
                let (src, dst) = self.edges[m];
                assert(src < n && dst < n);
                let next: Option<usize> = if forward && src == idx {
                    Some(dst)
                } else if !forward && dst == idx {
                    Some(src)
                } else {
                    None
                };
                if let Some(b) = next {
                    proof {
                        assert(pair_rel(self.edges@)(src as int, dst as int));
                        assert(dep_rel(nv)(src as int, dst as int));
                        assert(e(idx as int, b as int));
                    }
                    if !visited[b] {
                        proof {
                            if idx == start {
                                lemma_edge_reaches(e, start as int, b as int);
                            } else {
                                assert(queue@.contains(idx));
                                assert(visited@[idx as int]);
                                lemma_walk_extend(e, start as int, idx as int, b as int);
                            }
                        }
                        let ghost qb = queue@;
                        let ghost vb = visited@;
                        visited.set(b, true);
                        if b != start {
                            proof {
                                if qb.contains(b) {
                                    let k = choose|k: int| 0 <= k < qb.len() && qb[k] == b;
                                    assert(qb[k] == start || vb[qb[k] as int]);
                                }
                                let ext = as_ints(qb.push(b));
                                assert forall|x: int, y: int| 0 <= x < ext.len() && 0 <= y < ext.len() && x != y implies ext[x] != ext[y] by {
                                    if x < qb.len() && y < qb.len() {
                                        assert(qb[x] != qb[y]);
                                    } else if x < qb.len() {
                                        assert(qb.contains(qb[x]));
                                    } else if y < qb.len() {
                                        assert(qb.contains(qb[y]));
                                    }
                                }
                                assert forall|k: int| 0 <= k < ext.len() implies 0 <= #[trigger] ext[k] < n by {
                                    if k < qb.len() {
                                        assert(qb[k] < n);
                                    }
                                }
                                lemma_distinct_below(ext, n as int);
                            }
                            queue.push(b);
                            proof {
                                assert(queue@ =~= qb.push(b));
                                assert forall|x: int, y: int| 0 <= x < queue@.len() && 0 <= y < queue@.len() && x != y implies queue@[x] != queue@[y] by {
                                    if x < qb.len() && y < qb.len() {
                                        assert(qb[x] != qb[y]);
                                    } else if x < qb.len() {
                                        assert(qb.contains(qb[x]));
                                    } else if y < qb.len() {
                                        assert(qb.contains(qb[y]));
                                    }
                                }
                            }
                        }
                        proof {
                            assert forall|x: int| 0 <= x < n && #[trigger] visited@[x] implies queue@.contains(x as usize) by {
                                if x == b as int {
                                    if b != start {
                                        assert(queue@[queue@.len() - 1] == b);
                                    } else {
                                        assert(queue@[0] == start);
                                    }
                                } else {
                                    assert(vb[x]);
                                    let k = choose|k: int| 0 <= k < qb.len() && qb[k] == x as usize;
                                    assert(queue@[k] == x as usize);
                                }
                            }
                            assert forall|q: int| 0 <= q < queue@.len() implies #[trigger] queue@[q] == start || visited@[queue@[q] as int] by {
                                if q < qb.len() {
                                    assert(queue@[q] == qb[q]);
                                    assert(qb[q] == start || vb[qb[q] as int]);
                                }
                            }
                        }
                    }
                }
                m += 1;
            }
            proof {
                assert forall|q: int, b: int| 0 <= q < head + 1 && #[trigger] e(queue@[q] as int, b) implies visited@[b] by {
                    if q == head {
                        assert(dep_rel(nv) == pair_rel(self.edges@));
                        if forward {
                            assert(pair_rel(self.edges@)(idx as int, b));
                            let k = choose|k: int| 0 <= k < self.edges@.len() && #[trigger] self.edges@[k] == (idx as int as usize, b as usize)
                                && idx >= 0 && b >= 0 && idx <= usize::MAX && b <= usize::MAX;
                            assert(self.edges@[k].0 == idx);
                        } else {
                            assert(pair_rel(self.edges@)(b, idx as int));
                            let k = choose|k: int| 0 <= k < self.edges@.len() && #[trigger] self.edges@[k] == (b as usize, idx as int as usize)
                                && idx >= 0 && b >= 0 && idx <= usize::MAX && b <= usize::MAX;
                            assert(self.edges@[k].1 == idx);
                        }
                    } else {
                        assert(queue@[q] == queue_before[q]);
                    }
                }
            }
            head += 1;
        }
        proof {
            let s = |x: int| 0 <= x < n && visited@[x];
            assert forall|j: int| 0 <= j < n implies (#[trigger] visited@[j] <==> reaches(e, start as int, j)) by {
                if reaches(e, start as int, j) {
                    assert forall|y: int| #[trigger] e(start as int, y) implies s(y) by {
                        assert(e(queue@[0] as int, y));
                    }
                    assert forall|x: int, y: int| s(x) && #[trigger] e(x, y) implies s(y) by {
                        assert(queue@.contains(x as usize));
                        let k = choose|k: int| 0 <= k < queue@.len() && queue@[k] == x as usize;
                        assert(e(queue@[k] as int, y));
                    }
                    lemma_closed_holds_reach(e, start as int, s, j);
                }
            }
        }
        visited
    }
}


/// The names of the nodes marked in `owners` and of every node reachable
/// from one of them.
pub open spec fn affected_names(ns: Seq<NodeView>, owners: Seq<bool>) -> Set<Seq<char>> {
    Set::new(|s: Seq<char>| exists|j: int| 0 <= j < ns.len() && #[trigger] ns[j].name == s && (owners[j]
        || exists|i: int| 0 <= i < ns.len() && owners[i] && #[trigger] reaches(dep_rel(ns), i, j)))
}

/// The nodes whose names `affected_names(ns, owners)` holds.
pub open spec fn affected_nodes(ns: Seq<NodeView>, owners: Seq<bool>) -> Set<NodeView> {
    Set::new(|v: NodeView| exists|j: int| 0 <= j < ns.len() && v == #[trigger] ns[j] && affected_names(ns, owners).contains(ns[j].name))
}

/// Whether node `n` owns one of `paths`.
pub open spec fn owns_any(n: NodeView, paths: Seq<Seq<char>>) -> bool {
    exists|k: int| 0 <= k < paths.len() && #[trigger] node_includes(n, paths[k])
}

/// Which nodes own one of `paths`.
pub open spec fn owners_of(ns: Seq<NodeView>, paths: Seq<Seq<char>>) -> Seq<bool> {
    Seq::new(ns.len(), |i: int| owns_any(ns[i], paths))
}

impl DependencyGraph {
    /// The index of the node named `name`.
    fn lookup(&self, name: &str) -> (r: Option<usize>)
        requires
            self.wf(),
        ensures
            r is None <==> !declared(self@, name@),
            r matches Some(i) ==> i < self@.len() && i as int == index_of(self@, name@) && self@[i as int].name == name@,
    {
        let key = name.to_string();
        let r = find_name(&self.nodes, &key);
        proof {
            if let Some(i) = r {
                assert(self@[i as int] == self.nodes@[i as int]@);
                assert(declared(self@, name@));
                let c = index_of(self@, name@);
                assert(self@[c].name == self@[i as int].name);
            }
        }
        r
    }

    /// The nodes at the marked indices, in index order.
    fn marked_nodes(&self, marks: &Vec<bool>) -> (r: Vec<Node>)
        requires
            self.wf(),
            marks@.len() == self@.len(),
        ensures
            views_of(r@).no_duplicates(),
            views_of(r@).to_set() == Set::new(|v: NodeView| exists|j: int| 0 <= j < self@.len() && marks@[j] && v == #[trigger] self@[j]),
    {
        let ghost nv = self@;
        let mut r: Vec<Node> = Vec::new();
        let ghost mut ids: Seq<int> = Seq::empty();
        let mut i: usize = 0;
        while i < marks.len()
            invariant
                self.wf(),
                nv == self@,
                marks@.len() == nv.len(),
                i <= marks@.len(),
                r@.len() == ids.len(),
                forall|x: int| 0 <= x < ids.len() ==> 0 <= #[trigger] ids[x] < i && marks@[ids[x]] && r@[x]@ == nv[ids[x]],
                forall|x: int, y: int| 0 <= x < y < ids.len() ==> #[trigger] ids[x] < #[trigger] ids[y],
                forall|j: int| 0 <= j < i && #[trigger] marks@[j] ==> exists|x: int| 0 <= x < ids.len() && #[trigger] ids[x] == j,
            decreases marks.len() - i,
        {
            if marks[i] {
                assert(nv[i as int] == self.nodes@[i as int]@);
                r.push(self.nodes[i].duplicate());
                proof {
                    let old_ids = ids;
                    ids = ids.push(i as int);
                    assert forall|j: int| 0 <= j < i + 1 && #[trigger] marks@[j] implies exists|x: int| 0 <= x < ids.len() && #[trigger] ids[x] == j by {
                        if j == i {
                            assert(ids[old_ids.len() as int] == j);
                        } else {
                            let x = choose|x: int| 0 <= x < old_ids.len() && #[trigger] old_ids[x] == j;
                            assert(ids[x] == j);
                        }
                    }
                }
            }
            i += 1;
        }
        proof {
            let vs = views_of(r@);
            assert forall|x: int, y: int| 0 <= x < vs.len() && 0 <= y < vs.len() && x != y implies vs[x] != vs[y] by {
                if vs[x] == vs[y] {
                    assert(nv[ids[x]].name == nv[ids[y]].name);
                    if x < y {
                        assert(ids[x] < ids[y]);
                    } else {
                        assert(ids[y] < ids[x]);
                    }
                }
            }
            let target = Set::new(|v: NodeView| exists|j: int| 0 <= j < nv.len() && marks@[j] && v == #[trigger] nv[j]);
            assert forall|v: NodeView| #[trigger] vs.to_set().contains(v) <==> target.contains(v) by {
                if vs.to_set().contains(v) {
                    let x = choose|x: int| 0 <= x < vs.len() && vs[x] == v;
                    assert(v == nv[ids[x]]);
                }
                if target.contains(v) {
                    let j = choose|j: int| 0 <= j < nv.len() && marks@[j] && v == #[trigger] nv[j];
                    let x = choose|x: int| 0 <= x < ids.len() && #[trigger] ids[x] == j;
                    assert(vs[x] == v);
                }
            }
            assert(vs.to_set() =~= target);
        }
        r
    }

    /// Every node that the node named `node_name` transitively depends on,
    /// each once; empty when no node has that name.
    pub fn get_dependencies(&self, node_name: &str) -> (r: Vec<Node>)
        requires
            self.wf(),
        ensures
            views_of(r@).no_duplicates(),
            views_of(r@).to_set() == upstream(self@, node_name@),
    {
        match self.lookup(node_name) {
            None => {
                let r: Vec<Node> = Vec::new();
                assert(views_of(r@).to_set() =~= upstream(self@, node_name@));
                r
            },
            Some(i) => {
                let marks = self.reach_marks(i, false);
                let r = self.marked_nodes(&marks);
                proof {
                    let nv = self@;
                    assert forall|v: NodeView| #[trigger] views_of(r@).to_set().contains(v) <==> upstream(nv, node_name@).contains(v) by {
                        if views_of(r@).to_set().contains(v) {
                            let j = choose|j: int| 0 <= j < nv.len() && marks@[j] && v == #[trigger] nv[j];
                            lemma_reverse_reach(nv, i as int, j);
                        }
                        if upstream(nv, node_name@).contains(v) {
                            let j = choose|j: int| 0 <= j < nv.len() && #[trigger] reaches(dep_rel(nv), j, index_of(nv, node_name@)) && v == nv[j];
                            lemma_reverse_reach(nv, i as int, j);
                            assert(marks@[j]);
                        }
                    }
                    assert(views_of(r@).to_set() =~= upstream(nv, node_name@));
                }
                r
            },
        }
    }

    /// Every node that transitively depends on the node named `node_name`,
    /// each once; empty when no node has that name.
    pub fn get_dependents(&self, node_name: &str) -> (r: Vec<Node>)
        requires
            self.wf(),
        ensures
            views_of(r@).no_duplicates(),
            views_of(r@).to_set() == downstream(self@, node_name@),
    {
        match self.lookup(node_name) {
            None => {
                let r: Vec<Node> = Vec::new();
                assert(views_of(r@).to_set() =~= downstream(self@, node_name@));
                r
            },
            Some(i) => {
                let marks = self.reach_marks(i, true);
                let r = self.marked_nodes(&marks);
                proof {
                    let nv = self@;
                    lemma_forward_rel(nv);
                    assert forall|v: NodeView| #[trigger] views_of(r@).to_set().contains(v) <==> downstream(nv, node_name@).contains(v) by {
                        if views_of(r@).to_set().contains(v) {
                            let j = choose|j: int| 0 <= j < nv.len() && marks@[j] && v == #[trigger] nv[j];
                            assert(reaches(dep_rel(nv), index_of(nv, node_name@), j));
                        }
                        if downstream(nv, node_name@).contains(v) {
                            let j = choose|j: int| 0 <= j < nv.len() && #[trigger] reaches(dep_rel(nv), index_of(nv, node_name@), j) && v == nv[j];
                            assert(marks@[j]);
                        }
                    }
                    assert(views_of(r@).to_set() =~= downstream(nv, node_name@));
                }
                r
            },
        }
    }

    /// The node named `node_name`, if there is one.
    pub fn get_node(&self, node_name: &str) -> (r: Option<&Node>)
        requires
            self.wf(),
        ensures
            r is Some <==> declared(self@, node_name@),
            r matches Some(n) ==> n@ == self@[index_of(self@, node_name@)],
    {
        match self.lookup(node_name) {
            None => None,
            Some(i) => Some(&self.nodes[i]),
        }
    }

    /// Every node of the graph, in declaration order.
    pub fn get_all_nodes(&self) -> (r: Vec<&Node>)
        ensures
            r@.len() == self@.len(),
            forall|i: int| 0 <= i < r@.len() ==> (#[trigger] r@[i])@ == self@[i],
    {
        let mut r: Vec<&Node> = Vec::new();
        let mut i: usize = 0;
        while i < self.nodes.len()
            invariant
                i <= self.nodes@.len(),
                r@.len() == i,
                forall|x: int| 0 <= x < i ==> (#[trigger] r@[x])@ == self@[x],
            decreases self.nodes.len() - i,
        {
            r.push(&self.nodes[i]);
            i += 1;
        }
        r
    }
}


impl DependencyGraph {
    /// The names at the marked indices, in index order.
    fn marked_names(&self, marks: &Vec<bool>) -> (r: Vec<String>)
        requires
            self.wf(),
            marks@.len() == self@.len(),
        ensures
            crate::node::strings_view(r@).no_duplicates(),
            crate::node::strings_view(r@).to_set() == Set::new(|s: Seq<char>| exists|j: int| 0 <= j < self@.len() && marks@[j] && s == #[trigger] self@[j].name),
    {
        let ghost nv = self@;
        let mut r: Vec<String> = Vec::new();
        let ghost mut ids: Seq<int> = Seq::empty();
        let mut i: usize = 0;
        while i < marks.len()
            invariant
                self.wf(),
                nv == self@,
                marks@.len() == nv.len(),
                i <= marks@.len(),
                r@.len() == ids.len(),
                forall|x: int| 0 <= x < ids.len() ==> 0 <= #[trigger] ids[x] < i && marks@[ids[x]] && r@[x]@ == nv[ids[x]].name,
                forall|x: int, y: int| 0 <= x < y < ids.len() ==> #[trigger] ids[x] < #[trigger] ids[y],
                forall|j: int| 0 <= j < i && #[trigger] marks@[j] ==> exists|x: int| 0 <= x < ids.len() && #[trigger] ids[x] == j,
            decreases marks.len() - i,
        {
            if marks[i] {
                assert(nv[i as int] == self.nodes@[i as int]@);
                r.push(self.nodes[i].name.clone());
                proof {
                    let old_ids = ids;
                    ids = ids.push(i as int);
                    assert forall|j: int| 0 <= j < i + 1 && #[trigger] marks@[j] implies exists|x: int| 0 <= x < ids.len() && #[trigger] ids[x] == j by {
                        if j == i {
                            assert(ids[old_ids.len() as int] == j);
                        } else {
                            let x = choose|x: int| 0 <= x < old_ids.len() && #[trigger] old_ids[x] == j;
                            assert(ids[x] == j);
                        }
                    }
                }
            }
            i += 1;
        }
        proof {
            let vs = crate::node::strings_view(r@);
            assert forall|x: int, y: int| 0 <= x < vs.len() && 0 <= y < vs.len() && x != y implies vs[x] != vs[y] by {
                if vs[x] == vs[y] {
                    assert(nv[ids[x]].name == nv[ids[y]].name);
                    if x < y {
                        assert(ids[x] < ids[y]);
                    } else {
                        assert(ids[y] < ids[x]);
                    }
                }
            }
            let target = Set::new(|s: Seq<char>| exists|j: int| 0 <= j < nv.len() && marks@[j] && s == #[trigger] nv[j].name);
            assert forall|s: Seq<char>| #[trigger] vs.to_set().contains(s) <==> target.contains(s) by {
                if vs.to_set().contains(s) {
                    let x = choose|x: int| 0 <= x < vs.len() && vs[x] == s;
                    assert(s == nv[ids[x]].name);
                }
                if target.contains(s) {
                    let j = choose|j: int| 0 <= j < nv.len() && marks@[j] && s == #[trigger] nv[j].name;
                    let x = choose|x: int| 0 <= x < ids.len() && #[trigger] ids[x] == j;
                    assert(vs[x] == s);
                }
            }
            assert(vs.to_set() =~= target);
        }
        r
    }

    /// The names of the nodes marked in `owners` and of every node that
    /// transitively depends on one of them, each once.
    pub fn affected_from_owners(&self, owners: &Vec<bool>) -> (r: Vec<String>)
        requires
            self.wf(),
            owners@.len() == self@.len(),
        ensures
            crate::node::strings_view(r@).no_duplicates(),
            crate::node::strings_view(r@).to_set() == affected_names(self@, owners@),
    {
        let ghost nv = self@;
        let n = self.nodes.len();
        let mut marks: Vec<bool> = Vec::new();
        let mut j: usize = 0;
        while j < n
            invariant
                j <= n,
                n == owners@.len(),
                marks@ == owners@.subrange(0, j as int),
            decreases n - j,
        {
            marks.push(owners[j]);
            j += 1;
        }
        proof {
            lemma_forward_rel(nv);
        }
        let mut i: usize = 0;
        while i < n
            invariant
                self.wf(),
                nv == self@,
                n == nv.len(),
                owners@.len() == n,
                marks@.len() == n,
                i <= n,
                step_rel(nv, true) == dep_rel(nv),
                forall|x: int| 0 <= x < n ==> (#[trigger] marks@[x] <==> (owners@[x]
                    || exists|i2: int| 0 <= i2 < i && owners@[i2] && #[trigger] reaches(dep_rel(nv), i2, x))),
            decreases n - i,
        {
            if owners[i] {
                let reach = self.reach_marks(i, true);
                let ghost before = marks@;
                let mut x: usize = 0;
                while x < n
                    invariant
                        n == nv.len(),
                        reach@.len() == n,
                        marks@.len() == n,
                        x <= n,
                        forall|y: int| 0 <= y < n ==> #[trigger] marks@[y] == if y < x { before[y] || reach@[y] } else { before[y] },
                    decreases n - x,
                {
                    if reach[x] {
                        marks.set(x, true);
                    }
                    x += 1;
                }
                proof {
                    assert forall|y: int| 0 <= y < n implies (#[trigger] marks@[y] <==> (owners@[y]
                        || exists|i2: int| 0 <= i2 < i + 1 && owners@[i2] && #[trigger] reaches(dep_rel(nv), i2, y))) by {
                        if reaches(dep_rel(nv), i as int, y) {
                            assert(reach@[y]);
                        }
                        if exists|i2: int| 0 <= i2 < i + 1 && owners@[i2] && #[trigger] reaches(dep_rel(nv), i2, y) {
                            let i2 = choose|i2: int| 0 <= i2 < i + 1 && owners@[i2] && #[trigger] reaches(dep_rel(nv), i2, y);
                            if i2 < i {
                                assert(before[y]);
                            }
                        }
                    }
                }
            } else {
                proof {
                    assert forall|y: int| 0 <= y < n implies (#[trigger] marks@[y] <==> (owners@[y]
                        || exists|i2: int| 0 <= i2 < i + 1 && owners@[i2] && #[trigger] reaches(dep_rel(nv), i2, y))) by {
                        if exists|i2: int| 0 <= i2 < i + 1 && owners@[i2] && #[trigger] reaches(dep_rel(nv), i2, y) {
                            let i2 = choose|i2: int| 0 <= i2 < i + 1 && owners@[i2] && #[trigger] reaches(dep_rel(nv), i2, y);
                            assert(i2 < i);
                        }
                    }
                }
            }
            i += 1;
        }
        let r = self.marked_names(&marks);
        proof {
            let target = Set::new(|s: Seq<char>| exists|j: int| 0 <= j < nv.len() && marks@[j] && s == #[trigger] nv[j].name);
            assert forall|s: Seq<char>| #[trigger] target.contains(s) <==> affected_names(nv, owners@).contains(s) by {
                if target.contains(s) {
                    let j = choose|j: int| 0 <= j < nv.len() && marks@[j] && s == #[trigger] nv[j].name;
                    assert(marks@[j]);
                }
                if affected_names(nv, owners@).contains(s) {
                    let j = choose|j: int| 0 <= j < nv.len() && #[trigger] nv[j].name == s && (owners@[j]
                        || exists|i: int| 0 <= i < nv.len() && owners@[i] && #[trigger] reaches(dep_rel(nv), i, j));
                    assert(marks@[j]);
                }
            }
            assert(target =~= affected_names(nv, owners@));
        }
        r
    }

    /// Which nodes own one of `changed_files`.
    fn owners(&self, changed_files: &Vec<String>) -> (r: Vec<bool>)
        ensures
            r@ == owners_of(self@, crate::node::strings_view(changed_files@)),
    {
        let ghost nv = self@;
        let ghost paths = crate::node::strings_view(changed_files@);
        let mut r: Vec<bool> = Vec::new();
        let mut i: usize = 0;
        while i < self.nodes.len()
            invariant
                nv == self@,
                paths == crate::node::strings_view(changed_files@),
                i <= nv.len(),
                r@ == owners_of(nv, paths).subrange(0, i as int),
            decreases self.nodes.len() - i,
        {
            let node = &self.nodes[i];
            assert(nv[i as int] == node@);
            let mut owned = false;
            let mut k: usize = 0;
            while k < changed_files.len() && !owned
                invariant
                    nv[i as int] == node@,
                    paths == crate::node::strings_view(changed_files@),
                    k <= changed_files@.len(),
                    owned == exists|k2: int| 0 <= k2 < k && #[trigger] node_includes(node@, paths[k2]),
                decreases changed_files.len() - k,
            {
                assert(paths[k as int] == changed_files@[k as int]@);
                if node.includes_path(changed_files[k].as_str()) {
                    owned = true;
                }
                k += 1;
            }
            assert(owned == owns_any(nv[i as int], paths));
            r.push(owned);
            assert(r@ =~= owners_of(nv, paths).subrange(0, i + 1));
            i += 1;
        }
        r
    }

    /// The names of every node that owns one of `changed_files`, and of every
    /// node that transitively depends on such a node, each once.
    pub fn get_affected_nodes(&self, changed_files: &Vec<String>) -> (r: Vec<String>)
        requires
            self.wf(),
        ensures
            crate::node::strings_view(r@).no_duplicates(),
            crate::node::strings_view(r@).to_set()
                == affected_names(self@, owners_of(self@, crate::node::strings_view(changed_files@))),
    {
        let owners = self.owners(changed_files);
        self.affected_from_owners(&owners)
    }
}


impl DependencyGraph {
    /// The graph's nodes, in order: the form it is stored and shipped in.
    pub fn snapshot(&self) -> (r: Vec<Node>)
        ensures
            views_of(r@) == self@,
    {
        let mut r: Vec<Node> = Vec::new();
        let mut i: usize = 0;
        while i < self.nodes.len()
            invariant
                i <= self.nodes@.len(),
                r@.len() == i,
                forall|x: int| 0 <= x < i ==> (#[trigger] r@[x])@ == self@[x],
            decreases self.nodes.len() - i,
        {
            assert(self@[i as int] == self.nodes@[i as int]@);
            r.push(self.nodes[i].duplicate());
            i += 1;
        }
        assert(views_of(r@) =~= self@);
        r
    }

    /// Rebuilds a graph from a snapshot. The graph was validated when first
    /// built, so cycles are tolerated here rather than checked again.
    pub fn restore(nodes: Vec<Node>) -> (r: Result<DependencyGraph, DependencyGraphCreationError>)
        ensures
            r is Ok <==> build_succeeds(views_of(nodes@), true),
            r matches Ok(g) ==> g.wf() && g@ == views_of(nodes@),
    {
        DependencyGraph::new(nodes, true)
    }

    /// No two nodes of a graph share a name.
    pub proof fn lemma_names_unique(&self)
        requires
            self.wf(),
        ensures
            unique_names(self@),
    {
    }

    /// Restoring the snapshot of a graph always succeeds and gives a graph
    /// with the same nodes, hence the same answers to every query.
    pub proof fn lemma_snapshot_round_trip(&self)
        requires
            self.wf(),
        ensures
            build_succeeds(self@, true),
    {
        let ns = self@;
        assert forall|i: int| #[trigger] repeats_at(ns, i) implies false by {
            let j = choose|j: int| 0 <= j < i && #[trigger] ns[j].name == ns[i].name;
        }
    }
}

} // verus!
