use vstd::prelude::*;

verus! {

/// Declares serde_json's dynamic value: the opaque metadata a node carries.
#[verifier::external_type_specification]
#[verifier::external_body]
pub struct ExJsonValue(serde_json::Value);

/// Relies on the `Clone` that serde_json derives for `Value`: a structural copy.
pub assume_specification[ <serde_json::Value as Clone>::clone ](v: &serde_json::Value) -> (r: serde_json::Value)
    ensures
        r == *v,
;

/// What glob reports for a candidate path against a pattern: `None` when the
/// pattern does not compile, else whether the path matches it.
pub uninterp spec fn glob_outcome(pattern: Seq<char>, candidate: Seq<char>) -> Option<bool>;

/// Relies on glob::Pattern::new to compile the pattern (failing on malformed
/// syntax) and on Pattern::matches with the default options to test the path.
#[verifier::external_body]
fn glob_match(pattern: &str, candidate: &str) -> (r: Option<bool>)
    ensures
        r == glob_outcome(pattern@, candidate@),
{
    match glob::Pattern::new(pattern) {
        Ok(p) => Some(p.matches(candidate)),
        Err(_) => None,
    }
}

/// The mathematical content of a node.
pub struct NodeView {
    pub name: Seq<char>,
    pub path: Seq<char>,
    pub included_paths: Seq<Seq<char>>,
    pub excluded_paths: Seq<Seq<char>>,
    pub dependencies: Seq<Seq<char>>,
    pub metadata: Option<serde_json::Value>,
}

/// A declared unit of the repository.
#[derive(Debug, Clone)]
pub struct Node {
    /// The name of the node, unique among all nodes of a graph.
    pub name: String,
    /// Arbitrary metadata, carried through without being inspected.
    pub metadata: Option<serde_json::Value>,
    /// The directory the node is rooted at.
    pub path: String,
    /// Glob patterns, relative to `path`, of the files the node owns.
    pub included_paths: Vec<String>,
    /// Glob patterns, relative to `path`, of files excluded from the node.
    pub excluded_paths: Vec<String>,
    /// The names of the nodes this node depends on.
    pub dependencies: Vec<String>,
}

/// Why a node could not be created.
#[derive(Debug)]
pub enum NodeCreationError {
    /// The node was declared without any include pattern; carries its name.
    NoIncludedPaths(String),
}

pub open spec fn strings_view(v: Seq<String>) -> Seq<Seq<char>> {
    v.map_values(|s: String| s@)
}

impl View for Node {
    type V = NodeView;

    open spec fn view(&self) -> NodeView {
        NodeView {
            name: self.name@,
            path: self.path@,
            included_paths: strings_view(self.included_paths@),
            excluded_paths: strings_view(self.excluded_paths@),
            dependencies: strings_view(self.dependencies@),
            metadata: self.metadata,
        }
    }
}

/// `rel` resolved against the directory `base`, as `Path::join` does with
/// '/' separators: an absolute `rel` replaces `base`, and a separator is put
/// between the two unless `base` is empty or already ends with one.
pub open spec fn joined_path(base: Seq<char>, rel: Seq<char>) -> Seq<char> {
    if rel.len() > 0 && rel[0] == '/' {
        rel
    } else if base.len() == 0 || base.last() == '/' {
        base + rel
    } else {
        base + seq!['/'] + rel
    }
}

/// Whether a glob outcome counts as a match: a pattern that does not compile
/// matches nothing.
pub open spec fn is_hit(o: Option<bool>) -> bool {
    o == Some(true)
}

/// Whether the pattern `pat`, resolved against `base`, matches `candidate`.
pub open spec fn pattern_hits(base: Seq<char>, pat: Seq<char>, candidate: Seq<char>) -> bool {
    is_hit(glob_outcome(joined_path(base, pat), candidate))
}

pub open spec fn any_pattern_hits(base: Seq<char>, pats: Seq<Seq<char>>, candidate: Seq<char>) -> bool {
    exists|i: int| 0 <= i < pats.len() && #[trigger] pattern_hits(base, pats[i], candidate)
}

/// Whether a node owns `candidate`: some include pattern matches it and no
/// exclude pattern does.
pub open spec fn node_includes(n: NodeView, candidate: Seq<char>) -> bool {
    any_pattern_hits(n.path, n.included_paths, candidate)
        && !any_pattern_hits(n.path, n.excluded_paths, candidate)
}

/// Whether a sequence of glob outcomes holds a match.
pub open spec fn any_hit(outcomes: Seq<Option<bool>>) -> bool {
    exists|i: int| 0 <= i < outcomes.len() && #[trigger] is_hit(outcomes[i])
}

fn copy_strings(v: &Vec<String>) -> (r: Vec<String>)
    ensures
        r@ == v@,
{
    let mut r: Vec<String> = Vec::new();
    let mut i: usize = 0;
    while i < v.len()
        invariant
            i <= v.len(),
            r@ == v@.subrange(0, i as int),
        decreases v.len() - i,
    {
        r.push(v[i].clone());
        i += 1;
    }
    assert(r@ =~= v@);
    r
}

/// Resolves `rel` against `base` (see `joined_path`).
pub fn join_path(base: &str, rel: &str) -> (r: String)
    ensures
        r@ == joined_path(base@, rel@),
{
    let rel_len = rel.unicode_len();
    let base_len = base.unicode_len();
    if rel_len > 0 && rel.get_char(0) == '/' {
        return rel.to_string();
    }
    let mut r = base.to_string();
    if !(base_len == 0 || base.get_char(base_len - 1) == '/') {
        r.append("/");
        proof {
            reveal_strlit("/");
        }
        assert("/"@ =~= seq!['/']);
    }
    r.append(rel);
    r
}

/// Decides ownership from the glob outcomes of a node's include and exclude
/// patterns: at least one include match and no exclude match. An outcome of
/// `None` (a malformed pattern) never counts as a match.
pub fn path_verdict(include_outcomes: &Vec<Option<bool>>, exclude_outcomes: &Vec<Option<bool>>) -> (r: bool)
    ensures
        r == (any_hit(include_outcomes@) && !any_hit(exclude_outcomes@)),
{
    let inc = first_hit(include_outcomes);
    let exc = first_hit(exclude_outcomes);
    inc && !exc
}

fn first_hit(outcomes: &Vec<Option<bool>>) -> (r: bool)
    ensures
        r == any_hit(outcomes@),
{
    let mut i: usize = 0;
    while i < outcomes.len()
        invariant
            i <= outcomes.len(),
            forall|j: int| 0 <= j < i ==> !is_hit(#[trigger] outcomes@[j]),
        decreases outcomes.len() - i,
    {
        if let Some(true) = outcomes[i] {
            assert(is_hit(outcomes@[i as int]));
            return true;
        }
        i += 1;
    }
    false
}

impl Node {
    /// Whether the node is well formed: it has at least one include pattern.
    pub open spec fn wf(&self) -> bool {
        self.included_paths@.len() > 0
    }

    /// Creates a node; fails when no include pattern is given.
    pub fn new(
        name: String,
        path: String,
        included_paths: Vec<String>,
        excluded_paths: Vec<String>,
        dependencies: Vec<String>,
        metadata: Option<serde_json::Value>,
    ) -> (r: Result<Node, NodeCreationError>)
        ensures
            included_paths@.len() == 0 <==> r is Err,
            r matches Err(NodeCreationError::NoIncludedPaths(n)) ==> n@ == name@,
            r matches Ok(node) ==> node.wf() && node.name == name && node.path == path
                && node.included_paths@ == included_paths@ && node.excluded_paths@ == excluded_paths@
                && node.dependencies@ == dependencies@ && node.metadata == metadata,
    {
        if included_paths.len() == 0 {
            return Err(NodeCreationError::NoIncludedPaths(name));
        }
        Ok(Node { name, metadata, path, included_paths, excluded_paths, dependencies })
    }

    /// A copy of the node with the same content.
    pub fn duplicate(&self) -> (r: Node)
        ensures
            r@ == self@,
            r.wf() == self.wf(),
    {
        let metadata = match &self.metadata {
            Some(m) => Some(m.clone()),
            None => None,
        };
        Node {
            name: self.name.clone(),
            metadata,
            path: self.path.clone(),
            included_paths: copy_strings(&self.included_paths),
            excluded_paths: copy_strings(&self.excluded_paths),
            dependencies: copy_strings(&self.dependencies),
        }
    }

    fn pattern_outcomes(&self, patterns: &Vec<String>, candidate: &str) -> (r: Vec<Option<bool>>)
        ensures
            r@.len() == patterns@.len(),
            forall|i: int| 0 <= i < r@.len() ==>
                #[trigger] r@[i] == glob_outcome(joined_path(self.path@, patterns@[i]@), candidate@),
    {
        let mut r: Vec<Option<bool>> = Vec::new();
        let mut i: usize = 0;
        while i < patterns.len()
            invariant
                i <= patterns.len(),
                r@.len() == i,
                forall|j: int| 0 <= j < i ==>
                    #[trigger] r@[j] == glob_outcome(joined_path(self.path@, patterns@[j]@), candidate@),
            decreases patterns.len() - i,
        {
            let full = join_path(self.path.as_str(), patterns[i].as_str());
            r.push(glob_match(full.as_str(), candidate));
            i += 1;
        }
        r
    }

    /// Whether `candidate` belongs to the node: some include pattern, resolved
    /// against the node's directory, matches it, and no exclude pattern does.
    /// A malformed pattern matches nothing.
    pub fn includes_path(&self, candidate: &str) -> (r: bool)
        ensures
            r == node_includes(self@, candidate@),
    {
        let inc = self.pattern_outcomes(&self.included_paths, candidate);
        let exc = self.pattern_outcomes(&self.excluded_paths, candidate);
        let r = path_verdict(&inc, &exc);
        assert(any_hit(inc@) == any_pattern_hits(self.path@, self@.included_paths, candidate@)) by {
            if any_hit(inc@) {
                let i = choose|i: int| 0 <= i < inc@.len() && #[trigger] is_hit(inc@[i]);
                assert(pattern_hits(self.path@, self@.included_paths[i], candidate@));
            }
            if any_pattern_hits(self.path@, self@.included_paths, candidate@) {
                let i = choose|i: int| 0 <= i < self@.included_paths.len()
                    && #[trigger] pattern_hits(self.path@, self@.included_paths[i], candidate@);
                assert(is_hit(inc@[i]));
            }
        }
        assert(any_hit(exc@) == any_pattern_hits(self.path@, self@.excluded_paths, candidate@)) by {
            if any_hit(exc@) {
                let i = choose|i: int| 0 <= i < exc@.len() && #[trigger] is_hit(exc@[i]);
                assert(pattern_hits(self.path@, self@.excluded_paths[i], candidate@));
            }
            if any_pattern_hits(self.path@, self@.excluded_paths, candidate@) {
                let i = choose|i: int| 0 <= i < self@.excluded_paths.len()
                    && #[trigger] pattern_hits(self.path@, self@.excluded_paths[i], candidate@);
                assert(is_hit(exc@[i]));
            }
        }
        r
    }
}

} // verus!
