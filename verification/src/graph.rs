//! The graph of module dependencies, kept in a `petgraph` graph.

use vstd::prelude::*;
use vstd::set_lib::*;

verus! {

/// `petgraph::Graph`: opaque here, spoken of through `graph_nodes` and
/// `graph_edges`.
#[verifier::external_type_specification]
#[verifier::external_body]
#[verifier::reject_recursive_types(N)]
#[verifier::reject_recursive_types(E)]
#[verifier::reject_recursive_types(Ty)]
#[verifier::reject_recursive_types(Ix)]
pub struct ExGraph<N, E, Ty, Ix>(petgraph::Graph<N, E, Ty, Ix>);

/// `petgraph::Directed`, the marker of a directed graph.
#[verifier::external_type_specification]
#[verifier::external_body]
pub struct ExDirected(petgraph::Directed);

/// `petgraph::graph::NodeIndex`, what `petgraph` names a node by.
#[verifier::external_type_specification]
#[verifier::external_body]
#[verifier::reject_recursive_types(Ix)]
pub struct ExNodeIndex<Ix>(petgraph::graph::NodeIndex<Ix>);

/// `petgraph::algo::Cycle`, the error of a topological sort.
#[verifier::external_type_specification]
#[verifier::external_body]
#[verifier::reject_recursive_types(N)]
pub struct ExCycle<N>(petgraph::algo::Cycle<N>);

/// A directed graph whose nodes carry module names. Its indices are `usize`,
/// so that no number of nodes or edges is too large for it.
pub type DepsGraph = petgraph::Graph<String, (), petgraph::Directed, usize>;

/// The module names that the nodes of `graph` carry, in the order of their
/// indices.
pub uninterp spec fn graph_nodes(graph: DepsGraph) -> Seq<Seq<char>>;

/// The edges of `graph`, as pairs of node indices, from source to target, in the
/// order in which they were added.
pub uninterp spec fn graph_edges(graph: DepsGraph) -> Seq<(nat, nat)>;

/// What `petgraph::algo::toposort` makes of the graph with `nodes` nodes and the
/// edges `edges`, added in that order: a topological order of the nodes, or
/// nothing where there is none.
pub uninterp spec fn toposort_order(nodes: nat, edges: Seq<(nat, nat)>) -> Option<Seq<nat>>;

/// Calls `Graph::with_capacity`, which makes a graph without nodes and edges.
#[verifier::external_body]
pub(crate) fn new_graph() -> (graph: DepsGraph)
    ensures
        graph_nodes(graph) == Seq::<Seq<char>>::empty(),
        graph_edges(graph) == Seq::<(nat, nat)>::empty(),
{
    petgraph::Graph::with_capacity(0, 0)
}

/// Calls `Graph::add_node`, which appends a node and returns its index.
#[verifier::external_body]
pub(crate) fn add_node(graph: &mut DepsGraph, name: String) -> (index: usize)
    ensures
        index == graph_nodes(*old(graph)).len(),
        graph_nodes(*final(graph)) == graph_nodes(*old(graph)).push(name@),
        graph_edges(*final(graph)) == graph_edges(*old(graph)),
{
    graph.add_node(name).index()
}

/// Calls `Graph::add_edge`, which appends an edge, also where there is already
/// one between the two nodes. It panics where one of the nodes does not exist.
#[verifier::external_body]
pub(crate) fn add_edge(graph: &mut DepsGraph, source: usize, target: usize)
    requires
        source < graph_nodes(*old(graph)).len(),
        target < graph_nodes(*old(graph)).len(),
    ensures
        graph_nodes(*final(graph)) == graph_nodes(*old(graph)),
        graph_edges(*final(graph)) == graph_edges(*old(graph)).push((source as nat, target as nat)),
{
    graph.add_edge(petgraph::graph::NodeIndex::new(source), petgraph::graph::NodeIndex::new(target), ());
}

/// The order `order` runs through the nodes `0`, .., `nodes - 1`, each once, and
/// every edge leads from an earlier node to a later one.
pub open spec fn is_topological_order(nodes: nat, edges: Seq<(nat, nat)>, order: Seq<nat>) -> bool {
    &&& order.len() == nodes
    &&& order.no_duplicates()
    &&& forall|i: int| 0 <= i < order.len() ==> #[trigger] order[i] < nodes
    &&& forall|e: int, i: int, j: int|
        #![trigger edges[e], order[i], order[j]]
        0 <= e < edges.len() && 0 <= i < order.len() && 0 <= j < order.len() && edges[e] == (
        order[i], order[j]) ==> i < j
}

/// The walk `walk` follows edges at every step and ends where it began.
pub open spec fn is_cycle(edges: Seq<(nat, nat)>, walk: Seq<nat>) -> bool {
    &&& walk.len() >= 2
    &&& walk.first() == walk.last()
    &&& forall|i: int|
        #![trigger walk[i]]
        0 <= i < walk.len() - 1 ==> edges.contains((walk[i], walk[i + 1]))
}

/// Some walk along the edges comes back to where it began.
pub open spec fn has_cycle(edges: Seq<(nat, nat)>) -> bool {
    exists|walk: Seq<nat>| is_cycle(edges, walk)
}

/// The node indices `order` as natural numbers.
pub open spec fn indices(order: Seq<usize>) -> Seq<nat> {
    order.map_values(|i: usize| i as nat)
}

/// Calls `petgraph::algo::toposort`. Where the graph has no cycle, it returns all
/// nodes, each before its successors; otherwise it returns an error. A node with
/// an edge to itself is a cycle too. Which of several orders it returns follows
/// from the number of nodes and from the edges in the order in which they were
/// added; beyond that the choice is only named here, by `toposort_order`.
#[verifier::external_body]
pub(crate) fn toposort(graph: &DepsGraph) -> (result: Result<
    Vec<usize>,
    petgraph::algo::Cycle<petgraph::graph::NodeIndex<usize>>,
>)
    ensures
        match result {
            Ok(order) => {
                &&& toposort_order(graph_nodes(*graph).len(), graph_edges(*graph)) == Some(
                    indices(order@),
                )
                &&& is_topological_order(
                    graph_nodes(*graph).len(),
                    graph_edges(*graph),
                    indices(order@),
                )
            },
            Err(_) => {
                &&& toposort_order(graph_nodes(*graph).len(), graph_edges(*graph)) == None::<Seq<nat>>
                &&& has_cycle(graph_edges(*graph))
            },
        },
{
    let order = petgraph::algo::toposort(graph, None)?;
    Ok(order.into_iter().map(|node| node.index()).collect())
}

/// A graph with a cycle has no topological order: where some walk along the
/// edges comes back to its first node, no order has all edges lead forward.
pub proof fn lemma_ordered_graph_has_no_cycle(nodes: nat, edges: Seq<(nat, nat)>, order: Seq<nat>)
    requires
        is_topological_order(nodes, edges, order),
        forall|e: int| 0 <= e < edges.len() ==> (#[trigger] edges[e]).0 < nodes && edges[e].1 < nodes,
    ensures
        !has_cycle(edges),
{
    assert forall|walk: Seq<nat>| !is_cycle(edges, walk) by {
        if is_cycle(edges, walk) {
            lemma_walk_moves_forward(nodes, edges, order, walk, walk.len() - 1);
        }
    }
}

/// An order of `nodes` distinct nodes below `nodes` holds each of them.
pub proof fn lemma_order_holds_every_node(nodes: nat, order: Seq<nat>)
    requires
        order.len() == nodes,
        order.no_duplicates(),
        forall|i: int| 0 <= i < order.len() ==> #[trigger] order[i] < nodes,
    ensures
        forall|node: nat| node < nodes ==> #[trigger] order.contains(node),
{
    let held = order.map_values(|node: nat| node as int);
    let all = set_int_range(0, nodes as int);
    lemma_int_range(0, nodes as int);
    assert(held.no_duplicates());
    held.unique_seq_to_set();
    assert(held.to_set().subset_of(all)) by {
        assert forall|node: int| held.to_set().contains(node) implies all.contains(node) by {
            let i = choose|i: int| 0 <= i < held.len() && held[i] == node;
            assert(order[i] < nodes);
        }
    }
    lemma_subset_equality(held.to_set(), all);
    assert forall|node: nat| node < nodes implies #[trigger] order.contains(node) by {
        assert(held.to_set().contains(node as int));
        let i = choose|i: int| 0 <= i < held.len() && held[i] == node as int;
        assert(order[i] == node);
    }
}

/// After `steps` steps, a walk along the edges stands at a node that a
/// topological order places after the first one.
proof fn lemma_walk_moves_forward(
    nodes: nat,
    edges: Seq<(nat, nat)>,
    order: Seq<nat>,
    walk: Seq<nat>,
    steps: int,
)
    requires
        is_topological_order(nodes, edges, order),
        forall|e: int| 0 <= e < edges.len() ==> (#[trigger] edges[e]).0 < nodes && edges[e].1 < nodes,
        is_cycle(edges, walk),
        1 <= steps < walk.len(),
    ensures
        order.index_of(walk[0]) < order.index_of(walk[steps]),
    decreases steps,
{
    lemma_order_holds_every_node(nodes, order);
    let before = walk[steps - 1];
    let after = walk[steps - 1 + 1];
    assert(edges.contains((before, after)));
    let e = choose|e: int| 0 <= e < edges.len() && edges[e] == (before, after);
    assert(edges[e].0 < nodes && edges[e].1 < nodes);
    assert(order.contains(before) && order.contains(after));
    assert(edges[e] == (order[order.index_of(before)], order[order.index_of(after)]));
    if steps > 1 {
        lemma_walk_moves_forward(nodes, edges, order, walk, steps - 1);
    }
}

} // verus!
