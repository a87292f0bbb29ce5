//! Directed graphs of the `petgraph` crate, as far as the trail puzzle
//! needs them. The graph and the searches on it are the crate's work; this
//! module names what a graph holds and says what each call does to it.

use vstd::prelude::*;

verus! {

/// The graph type of `petgraph`; what is inside a value of it is known
/// only through `graph_nodes` and `graph_edges`.
#[verifier::external_type_specification]
#[verifier::external_body]
#[verifier::reject_recursive_types(N)]
#[verifier::reject_recursive_types(E)]
#[verifier::reject_recursive_types(Ty)]
#[verifier::reject_recursive_types(Ix)]
pub struct ExGraph<N, E, Ty, Ix>(petgraph::graph::Graph<N, E, Ty, Ix>);

/// The marker of `petgraph` for graphs with directed edges.
#[verifier::external_type_specification]
#[verifier::external_body]
pub struct ExDirected(petgraph::Directed);

/// The weights of the nodes of a graph, in the order of their numbers.
pub uninterp spec fn graph_nodes(g: petgraph::graph::Graph<usize, u32, petgraph::Directed, u32>) -> Seq<
    usize,
>;

/// The edges of a graph, each as the numbers of the node it leaves and of
/// the node it reaches, in the order in which they were added.
pub uninterp spec fn graph_edges(
    g: petgraph::graph::Graph<usize, u32, petgraph::Directed, u32>,
) -> Seq<(int, int)>;

/// The relation "an edge of `edges` leads from `a` to `b`".
pub open spec fn linked(edges: Seq<(int, int)>) -> spec_fn(int, int) -> bool {
    |a: int, b: int| edges.contains((a, b))
}

/// `path` names one node or more, each joined to the next by `edge`.
pub open spec fn is_walk(edge: spec_fn(int, int) -> bool, path: Seq<int>) -> bool {
    path.len() > 0 && forall|i: int| 0 <= i < path.len() - 1 ==> edge(#[trigger] path[i], path[i + 1])
}

/// Some walk leads from `from` to `to`; the walk of `from` alone leads from
/// `from` to `from`.
pub open spec fn reach(edge: spec_fn(int, int) -> bool, from: int, to: int) -> bool {
    exists|path: Seq<int>| #[trigger] is_walk(edge, path) && path[0] == from && path.last() == to
}

/// The walks from `from` to `to` that pass no node twice.
pub open spec fn simple_paths(edge: spec_fn(int, int) -> bool, from: int, to: int) -> Set<Seq<int>> {
    Set::new(
        |path: Seq<int>|
            is_walk(edge, path) && path[0] == from && path.last() == to && path.no_duplicates(),
    )
}

/// Calls `petgraph::graph::Graph::new`: a graph without nodes or edges.
#[verifier::external_body]
pub(crate) fn new_graph() -> (g: petgraph::graph::Graph<usize, u32, petgraph::Directed, u32>)
    ensures
        graph_nodes(g).len() == 0,
        graph_edges(g).len() == 0,
{
    petgraph::graph::Graph::new()
}

/// Calls `petgraph::graph::Graph::add_node`: the node is added after those
/// that are there and gets the next number; the edges stay. The call
/// panics when the numbers of 32 bits are used up, which `requires`
/// excludes.
#[verifier::external_body]
pub(crate) fn add_node(
    g: &mut petgraph::graph::Graph<usize, u32, petgraph::Directed, u32>,
    weight: usize,
) -> (id: usize)
    requires
        graph_nodes(*old(g)).len() < u32::MAX,
    ensures
        id == graph_nodes(*old(g)).len(),
        graph_nodes(*final(g)) == graph_nodes(*old(g)).push(weight),
        graph_edges(*final(g)) == graph_edges(*old(g)),
{
    g.add_node(weight).index()
}

/// Calls `petgraph::graph::Graph::add_edge`: the edge from node `a` to node
/// `b` is added after those that are there; the nodes stay. The call panics
/// when a node does not exist or the numbers of 32 bits are used up, which
/// `requires` excludes.
#[verifier::external_body]
pub(crate) fn add_edge(
    g: &mut petgraph::graph::Graph<usize, u32, petgraph::Directed, u32>,
    a: usize,
    b: usize,
    weight: u32,
)
    requires
        a < graph_nodes(*old(g)).len(),
        b < graph_nodes(*old(g)).len(),
        graph_edges(*old(g)).len() < u32::MAX,
    ensures
        graph_nodes(*final(g)) == graph_nodes(*old(g)),
        graph_edges(*final(g)) == graph_edges(*old(g)).push((a as int, b as int)),
{
    g.add_edge(petgraph::graph::NodeIndex::new(a), petgraph::graph::NodeIndex::new(b), weight);
}

/// Calls `petgraph::algo::has_path_connecting`: whether a walk along the
/// edges leads from node `from` to node `to`; from a node to itself one
/// always does.
#[verifier::external_body]
pub(crate) fn has_path(
    g: &petgraph::graph::Graph<usize, u32, petgraph::Directed, u32>,
    from: usize,
    to: usize,
) -> (found: bool)
    requires
        from < graph_nodes(*g).len(),
        to < graph_nodes(*g).len(),
    ensures
        found == reach(linked(graph_edges(*g)), from as int, to as int),
{
    petgraph::algo::has_path_connecting(
        g,
        petgraph::graph::NodeIndex::new(from),
        petgraph::graph::NodeIndex::new(to),
        None,
    )
}

/// Calls `petgraph::algo::all_simple_paths`, with no bound on the length of
/// the paths, and counts what it yields: the walks from node `from` to
/// another node `to` that pass no node twice. The crate yields such a walk
/// once for each choice among parallel edges, so `requires` excludes
/// parallel edges; it also excludes more walks than a machine word counts.
#[verifier::external_body]
pub(crate) fn count_paths(
    g: &petgraph::graph::Graph<usize, u32, petgraph::Directed, u32>,
    from: usize,
    to: usize,
) -> (count: usize)
    requires
        from != to,
        from < graph_nodes(*g).len(),
        to < graph_nodes(*g).len(),
        graph_edges(*g).no_duplicates(),
        simple_paths(linked(graph_edges(*g)), from as int, to as int).len() <= usize::MAX,
    ensures
        count == simple_paths(linked(graph_edges(*g)), from as int, to as int).len(),
{
    petgraph::algo::all_simple_paths::<Vec<_>, _>(
        g,
        petgraph::graph::NodeIndex::new(from),
        petgraph::graph::NodeIndex::new(to),
        0,
        None,
    ).count()
}

} // verus!
