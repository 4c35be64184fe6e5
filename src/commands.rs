use vstd::prelude::*;
use crate::graph::DependencyGraph;
use crate::graph::{affected_nodes, owners_of, views_of};
use crate::node::{Node, strings_view};

pub mod query;

verus! {

/// The commands of the command-line front end.
pub enum Commands {
    /// Builds the graph from every declaration file found under `dir`.
    Prepare {
        /// The directory to scan recursively.
        dir: String,
        /// The declaration file name to look for, when not the default.
        dependency_toml_name: Option<String>,
        /// Whether dependency cycles are tolerated.
        allow_cyclical: bool,
    },
    /// Lists the nodes affected by changes to `files`, using a stored graph.
    Query {
        /// The stored graph.
        graph_artifact_path: String,
        /// The changed files.
        files: Vec<String>,
    },
}

/// The nodes affected by changes to `changed_files`: the nodes owning one of
/// them and every node that transitively depends on such a node, each once.
pub fn query(graph: &DependencyGraph, changed_files: &Vec<String>) -> (r: Vec<Node>)
    requires
        graph.wf(),
    ensures
        views_of(r@).no_duplicates(),
        views_of(r@).to_set() == affected_nodes(graph@, owners_of(graph@, strings_view(changed_files@))),
{
    query::get_affected_nodes(graph, changed_files)
}

} // verus!
