//! The incremental topologically ordered directed acyclic graph of `pie_graph`, with the contracts the store relies
//! on.
use vstd::prelude::*;

use pie_graph::{DAG, Node};

verus! {

#[verifier::external_type_specification]
#[verifier::external_body]
#[verifier::reject_recursive_types(N)]
#[verifier::reject_recursive_types(E)]
#[verifier::reject_recursive_types(H)]
pub struct ExDag<N, E, H>(pie_graph::DAG<N, E, H>);

#[verifier::external_type_specification]
#[verifier::external_body]
pub struct ExNode(pie_graph::Node);

/// The graph type used by the store: nodes and edges carry no data, the store keeps that itself.
pub type Graph = DAG<(), ()>;

/// The nodes of a graph.
pub uninterp spec fn dag_nodes(g: DAG<(), ()>) -> Set<Node>;

/// The edges of a graph, as (source, destination) pairs.
pub uninterp spec fn dag_edges(g: DAG<(), ()>) -> Set<(Node, Node)>;

/// The topological order number of each node of a graph.
pub uninterp spec fn dag_topo_order(g: DAG<(), ()>) -> Map<Node, int>;

/// The `i`-th step of `path` is an edge in `edges`.
pub open spec fn path_step(edges: Set<(Node, Node)>, path: Seq<Node>, i: int) -> bool {
    edges.contains((path[i], path[i + 1]))
}

/// `path` is a path of at least one edge in `edges`.
pub open spec fn is_path(edges: Set<(Node, Node)>, path: Seq<Node>) -> bool {
    &&& path.len() >= 2
    &&& forall|i: int| 0 <= i < path.len() - 1 ==> #[trigger] path_step(edges, path, i)
}

/// There is a path of at least one edge from `a` to `b` in `edges`.
pub open spec fn reaches(edges: Set<(Node, Node)>, a: Node, b: Node) -> bool {
    exists|path: Seq<Node>| #[trigger] is_path(edges, path) && path[0] == a && path.last() == b
}

/// The graph is well formed: its edges connect its nodes, every node has a topological order number, distinct nodes
/// have distinct numbers, and every edge goes from a lower to a higher number.
pub open spec fn dag_wf(g: DAG<(), ()>) -> bool {
    &&& dag_nodes(g).finite()
    &&& forall|a: Node, b: Node| #[trigger] dag_edges(g).contains((a, b)) ==> dag_nodes(g).contains(a)
        && dag_nodes(g).contains(b)
    &&& dag_topo_order(g).dom() == dag_nodes(g)
    &&& forall|a: Node, b: Node|
        #![trigger dag_topo_order(g)[a], dag_topo_order(g)[b]]
        dag_nodes(g).contains(a) && dag_nodes(g).contains(b) && a != b ==> dag_topo_order(g)[a]
            != dag_topo_order(g)[b]
    &&& forall|a: Node, b: Node| #[trigger] dag_edges(g).contains((a, b)) ==> dag_topo_order(g)[a]
        < dag_topo_order(g)[b]
}

/// Both `a` and `b` are nodes of `g`.
pub open spec fn both_nodes(g: DAG<(), ()>, a: Node, b: Node) -> bool {
    dag_nodes(g).contains(a) && dag_nodes(g).contains(b)
}

/// An edge from `src` to `dst` would close a cycle in `g`.
pub open spec fn closes_cycle(g: DAG<(), ()>, src: Node, dst: Node) -> bool {
    src == dst || reaches(dag_edges(g), dst, src)
}

/// Failures of adding an edge.
#[derive(Clone, Copy, PartialEq, Eq, Debug)]
pub enum GraphError {
    NodeMissing,
    CycleDetected,
}

/// Result of comparing two nodes by their topological order.
#[derive(Clone, Copy, PartialEq, Eq, Debug)]
pub enum TopoOrder {
    Before,
    Same,
    After,
}

/// Creates an empty graph (`DAG::new`).
#[verifier::external_body]
pub(crate) fn dag_new() -> (g: DAG<(), ()>)
    ensures
        dag_nodes(g) == Set::<Node>::empty(),
        dag_edges(g) == Set::<(Node, Node)>::empty(),
        dag_wf(g),
{
    DAG::new()
}

/// Adds a node (`DAG::add_node`): the returned node is new and has no edges; the graph stays well formed, the new
/// node getting a topological order number of its own.
#[verifier::external_body]
pub(crate) fn dag_add_node(g: &mut DAG<(), ()>) -> (n: Node)
    requires
        dag_wf(*old(g)),
    ensures
        !dag_nodes(*old(g)).contains(n),
        dag_nodes(*final(g)) == dag_nodes(*old(g)).insert(n),
        dag_edges(*final(g)) == dag_edges(*old(g)),
        dag_wf(*final(g)),
{
    g.add_node(())
}

/// Adds an edge from `src` to `dst` (`DAG::add_edge`). Fails with `NodeMissing` when a node is not in the graph,
/// with `CycleDetected` (leaving the graph unchanged) when `src == dst` or `dst` reaches `src`; otherwise adds the
/// edge and returns whether it was new.
#[verifier::external_body]
pub(crate) fn dag_add_edge(g: &mut DAG<(), ()>, src: &Node, dst: &Node) -> (r: Result<bool, GraphError>)
    requires
        dag_wf(*old(g)),
    ensures
        dag_wf(*final(g)),
        dag_nodes(*final(g)) == dag_nodes(*old(g)),
        !both_nodes(*old(g), *src, *dst) ==> (r matches Err(GraphError::NodeMissing) && *final(g) == *old(g)),
        both_nodes(*old(g), *src, *dst) && closes_cycle(*old(g), *src, *dst) ==> (r matches Err(GraphError::CycleDetected) && dag_edges(*final(g)) == dag_edges(*old(g))),
        both_nodes(*old(g), *src, *dst) && !closes_cycle(*old(g), *src, *dst) ==> (r matches Ok(b) && b == !dag_edges(*old(g)).contains((*src, *dst)) && dag_edges(*final(g)) == dag_edges(*old(g)).insert((*src, *dst))),
{
    match g.add_edge(src, dst, ()) {
        Ok(b) => Ok(b),
        Err(pie_graph::Error::NodeMissing) => Err(GraphError::NodeMissing),
        Err(pie_graph::Error::CycleDetected) => Err(GraphError::CycleDetected),
    }
}

/// Whether there is a path from `src` to `dst` (`DAG::contains_transitive_edge`).
#[verifier::external_body]
pub(crate) fn dag_contains_transitive_edge(g: &DAG<(), ()>, src: &Node, dst: &Node) -> (r: bool)
    ensures
        r == (both_nodes(*g, *src, *dst) && *src != *dst && reaches(dag_edges(*g), *src, *dst)),
{
    g.contains_transitive_edge(src, dst)
}

/// Removes all outgoing edges of `src` (`DAG::remove_outgoing_edges_of_node`), leaving the nodes and the topological
/// order as they were.
#[verifier::external_body]
pub(crate) fn dag_remove_outgoing_edges(g: &mut DAG<(), ()>, src: &Node)
    requires
        dag_wf(*old(g)),
    ensures
        dag_wf(*final(g)),
        dag_nodes(*final(g)) == dag_nodes(*old(g)),
        dag_topo_order(*final(g)) == dag_topo_order(*old(g)),
        dag_edges(*final(g)) == dag_edges(*old(g)).filter(|e: (Node, Node)| e.0 != *src),
{
    let _ = g.remove_outgoing_edges_of_node(src);
}

/// Compares two nodes of the graph by their topological order (`DAG::topo_cmp`).
#[verifier::external_body]
pub(crate) fn dag_topo_relation(g: &DAG<(), ()>, a: &Node, b: &Node) -> (r: TopoOrder)
    requires
        dag_nodes(*g).contains(*a),
        dag_nodes(*g).contains(*b),
    ensures
        r == TopoOrder::Before <==> dag_topo_order(*g)[*a] < dag_topo_order(*g)[*b],
        r == TopoOrder::Same <==> dag_topo_order(*g)[*a] == dag_topo_order(*g)[*b],
        r == TopoOrder::After <==> dag_topo_order(*g)[*a] > dag_topo_order(*g)[*b],
{
    match g.topo_cmp(a, b) {
        std::cmp::Ordering::Less => TopoOrder::Before,
        std::cmp::Ordering::Equal => TopoOrder::Same,
        std::cmp::Ordering::Greater => TopoOrder::After,
    }
}

/// Every edge of a well-formed graph goes up in the topological order, so a path does too.
pub proof fn lemma_path_increases(g: DAG<(), ()>, path: Seq<Node>)
    requires
        dag_wf(g),
        is_path(dag_edges(g), path),
    ensures
        dag_topo_order(g)[path[0]] < dag_topo_order(g)[path.last()],
    decreases path.len(),
{
    assert(path_step(dag_edges(g), path, 0));
    if path.len() > 2 {
        let rest = path.drop_first();
        assert forall|i: int| 0 <= i < rest.len() - 1 implies #[trigger] path_step(dag_edges(g), rest, i) by {
            assert(path_step(dag_edges(g), path, i + 1));
        }
        lemma_path_increases(g, rest);
    }
}

/// A well-formed graph has no cycles: no node reaches itself.
pub proof fn lemma_acyclic(g: DAG<(), ()>, a: Node)
    requires
        dag_wf(g),
    ensures
        !reaches(dag_edges(g), a, a),
{
    if reaches(dag_edges(g), a, a) {
        let path = choose|path: Seq<Node>| #[trigger]
            is_path(dag_edges(g), path) && path[0] == a && path.last() == a;
        lemma_path_increases(g, path);
    }
}

} // verus!
