//! The store: the dependency graph of tasks and resources, with task outputs.
use vstd::prelude::*;

use pie_graph::{DAG, Node};

use crate::dependency::{Dependency, DependencyView, ResourceDependency, TaskDependency};
use crate::graph::{dag_add_node, dag_add_edge, dag_contains_transitive_edge, dag_edges, dag_new, dag_nodes, dag_remove_outgoing_edges, dag_topo_order, dag_topo_relation, dag_wf, reaches, GraphError, TopoOrder};
use crate::value::{KeyObj, Val, ValueObj};

verus! {

/// Identifier of a task node in the store.
#[derive(Clone, Copy, PartialEq, Eq, Structural, Hash, Debug)]
pub struct TaskNode(pub usize);

/// Identifier of a resource node in the store.
#[derive(Clone, Copy, PartialEq, Eq, Structural, Hash, Debug)]
pub struct ResourceNode(pub usize);

/// Data of a node: a task with its key and (cached) output, or a resource.
pub enum NodeData<T> {
    Task { task: T, key: KeyObj, output: Option<ValueObj> },
    Resource { resource: KeyObj },
}

/// An edge of the dependency graph: a dependency from node `src` to node `dst`.
pub struct Edge {
    pub src: usize,
    pub dst: usize,
    pub dependency: Dependency,
}

/// Mathematical view of an edge.
pub struct EdgeView {
    pub src: int,
    pub dst: int,
    pub dependency: DependencyView,
}

/// The dependency graph with task outputs.
///
/// Nodes are numbered from zero in the order they were created; node `i` is `nodes[i]` in the underlying directed
/// acyclic graph, which keeps the topological order and detects cycles. Edges are kept in insertion order.
pub struct Store<T> {
    graph: DAG<(), ()>,
    nodes: Vec<Node>,
    data: Vec<NodeData<T>>,
    edges: Vec<Edge>,
}

/// The key in node data.
pub open spec fn key_of_data<T>(d: NodeData<T>) -> Val {
    match d {
        NodeData::Task { key, .. } => key@,
        NodeData::Resource { resource } => resource@,
    }
}

/// The view of an edge.
pub open spec fn edge_view(e: Edge) -> EdgeView {
    EdgeView { src: e.src as int, dst: e.dst as int, dependency: e.dependency@ }
}

impl<T> Store<T> {
    /// The number of nodes.
    pub closed spec fn len(&self) -> nat {
        self.nodes@.len()
    }

    /// Node `i` is a task node.
    pub closed spec fn is_task_node(&self, i: int) -> bool {
        0 <= i < self.data@.len() && self.data@[i] is Task
    }

    /// Node `i` is a resource node.
    pub closed spec fn is_resource_node(&self, i: int) -> bool {
        0 <= i < self.data@.len() && self.data@[i] is Resource
    }

    /// The key of node `i`: the task key of a task node, the resource of a resource node.
    pub closed spec fn node_key(&self, i: int) -> Val {
        key_of_data(self.data@[i])
    }

    /// The task of task node `i`.
    pub closed spec fn task_of(&self, i: int) -> T {
        self.data@[i]->task
    }

    /// The cached output of task node `i`.
    pub closed spec fn output_of(&self, i: int) -> Option<Val> {
        match self.data@[i] {
            NodeData::Task { output, .. } => match output {
                Some(o) => Some(o@),
                None => None,
            },
            _ => None,
        }
    }

    /// The edges, in insertion order.
    pub closed spec fn edge_seq(&self) -> Seq<EdgeView> {
        self.edges@.map_values(|e: Edge| edge_view(e))
    }

    /// There is a dependency from node `src` to node `dst`.
    pub open spec fn has_edge(&self, src: int, dst: int) -> bool {
        exists|k: int| 0 <= k < self.edge_seq().len() && #[trigger] self.edge_seq()[k].src == src
            && self.edge_seq()[k].dst == dst
    }

    /// There is a dependency from node `src` to node `dst` that is `dependency`.
    pub open spec fn has_dependency(&self, src: int, dst: int, dependency: DependencyView) -> bool {
        exists|k: int| 0 <= k < self.edge_seq().len() && #[trigger] self.edge_seq()[k].src == src
            && self.edge_seq()[k].dst == dst && self.edge_seq()[k].dependency == dependency
    }

    /// There is a path of dependencies from node `src` to node `dst`.
    pub closed spec fn reaches(&self, src: int, dst: int) -> bool {
        reaches(dag_edges(self.graph), self.nodes@[src], self.nodes@[dst])
    }

    /// The topological order number of node `i`.
    pub closed spec fn topo(&self, i: int) -> int {
        dag_topo_order(self.graph)[self.nodes@[i]]
    }

    /// The store is well formed.
    pub closed spec fn wf(&self) -> bool {
        &&& dag_wf(self.graph)
        &&& self.nodes@.len() == self.data@.len()
        &&& forall|i: int, j: int|
            0 <= i < self.nodes@.len() && 0 <= j < self.nodes@.len() && i != j ==> self.nodes@[i]
                != self.nodes@[j]
        &&& forall|i: int| 0 <= i < self.nodes@.len() ==> dag_nodes(self.graph).contains(#[trigger] self.nodes@[i])
        &&& forall|n: Node| dag_nodes(self.graph).contains(n) ==> exists|i: int|
            0 <= i < self.nodes@.len() && #[trigger] self.nodes@[i] == n
        &&& forall|k: int|
            0 <= k < self.edges@.len() ==> {
                let e = #[trigger] self.edges@[k];
                &&& e.src < self.nodes@.len()
                &&& e.dst < self.nodes@.len()
                &&& self.data@[e.src as int] is Task
                &&& dag_edges(self.graph).contains((self.nodes@[e.src as int], self.nodes@[e.dst as int]))
                &&& (e.dependency is Read || e.dependency is Write) ==> self.data@[e.dst as int] is Resource
                &&& (e.dependency is Require || e.dependency is ReservedRequire)
                    ==> self.data@[e.dst as int] is Task
            }
        &&& forall|k1: int, k2: int|
            0 <= k1 < self.edges@.len() && 0 <= k2 < self.edges@.len() && k1 != k2 ==> !(
            #[trigger] self.edges@[k1].src == #[trigger] self.edges@[k2].src && self.edges@[k1].dst
                == self.edges@[k2].dst)
        &&& forall|a: Node, b: Node| #[trigger]
            dag_edges(self.graph).contains((a, b)) ==> exists|k: int|
                0 <= k < self.edges@.len() && self.nodes@[#[trigger] self.edges@[k].src as int] == a
                    && self.nodes@[self.edges@[k].dst as int] == b
        &&& forall|i: int, j: int|
            0 <= i < self.data@.len() && 0 <= j < self.data@.len() && i != j && self.data@[i] is Task
                && self.data@[j] is Task ==> key_of_data(#[trigger] self.data@[i]) != key_of_data(
                #[trigger] self.data@[j],
            )
        &&& forall|i: int, j: int|
            0 <= i < self.data@.len() && 0 <= j < self.data@.len() && i != j && self.data@[i] is Resource
                && self.data@[j] is Resource ==> key_of_data(#[trigger] self.data@[i]) != key_of_data(
                #[trigger] self.data@[j],
            )
    }

    /// `self` is `old` with possibly more nodes, more edges and different outputs: existing nodes keep their kind,
    /// key and task.
    pub open spec fn extends(&self, old: &Self) -> bool {
        &&& old.len() <= self.len()
        &&& forall|i: int|
            0 <= i < old.len() ==> (#[trigger] self.is_task_node(i) == old.is_task_node(i)
                && self.is_resource_node(i) == old.is_resource_node(i) && self.node_key(i) == old.node_key(i)
                && self.task_of(i) == old.task_of(i))
    }

    /// Every node of `old` that has an output still has one in `self`.
    pub open spec fn keeps_outputs(&self, old: &Self) -> bool {
        forall|i: int| 0 <= i < old.len() && (#[trigger] old.output_of(i)) is Some ==> self.output_of(i) is Some
    }

    /// Task nodes and resource nodes of a well-formed store are its nodes, and no node is both.
    pub proof fn lemma_wf_nodes(&self)
        requires
            self.wf(),
        ensures
            forall|i: int| #[trigger] self.is_task_node(i) ==> 0 <= i < self.len() && !self.is_resource_node(i),
            forall|i: int| #[trigger] self.is_resource_node(i) ==> 0 <= i < self.len() && !self.is_task_node(i),
    {
    }

    /// No node depends on itself, directly or indirectly: the dependency graph of a well-formed store has no cycle.
    pub proof fn lemma_no_cyclic_dependencies(&self, i: int)
        requires
            self.wf(),
            0 <= i < self.len(),
        ensures
            !self.reaches(i, i),
    {
        crate::graph::lemma_acyclic(self.graph, self.nodes@[i]);
    }

    /// A node that depends on another node, directly or indirectly, comes before it in topological order.
    pub proof fn lemma_dependency_order(&self, a: int, b: int)
        requires
            self.wf(),
            0 <= a < self.len(),
            0 <= b < self.len(),
            self.reaches(a, b),
        ensures
            self.topo(a) < self.topo(b),
    {
        let path = choose|path: Seq<Node>| #[trigger]
            crate::graph::is_path(dag_edges(self.graph), path) && path[0] == self.nodes@[a] && path.last()
                == self.nodes@[b];
        crate::graph::lemma_path_increases(self.graph, path);
    }

    /// Task keys of a well-formed store identify task nodes.
    pub proof fn lemma_task_key_unique(&self, i: int, j: int)
        requires
            self.wf(),
            self.is_task_node(i),
            self.is_task_node(j),
            self.node_key(i) == self.node_key(j),
        ensures
            i == j,
    {
    }

    /// Resource keys of a well-formed store identify resource nodes.
    pub proof fn lemma_resource_key_unique(&self, i: int, j: int)
        requires
            self.wf(),
            self.is_resource_node(i),
            self.is_resource_node(j),
            self.node_key(i) == self.node_key(j),
        ensures
            i == j,
    {
    }

    /// The edges of a well-formed store go from task nodes to nodes of the kind their dependency asks for.
    pub proof fn lemma_edge_bounds(&self)
        requires
            self.wf(),
        ensures
            forall|k: int|
                0 <= k < self.edge_seq().len() ==> {
                    let e = #[trigger] self.edge_seq()[k];
                    &&& self.is_task_node(e.src)
                    &&& 0 <= e.dst < self.len()
                    &&& (e.dependency is Read || e.dependency is Write) ==> self.is_resource_node(e.dst)
                    &&& (e.dependency is Require || e.dependency is ReservedRequire) ==> self.is_task_node(e.dst)
                },
    {
        assert forall|k: int| 0 <= k < self.edge_seq().len() implies {
            let e = #[trigger] self.edge_seq()[k];
            &&& self.is_task_node(e.src)
            &&& 0 <= e.dst < self.len()
            &&& (e.dependency is Read || e.dependency is Write) ==> self.is_resource_node(e.dst)
            &&& (e.dependency is Require || e.dependency is ReservedRequire) ==> self.is_task_node(e.dst)
        } by {
            let e = self.edges@[k];
            assert(self.edge_seq()[k] == edge_view(e));
        }
    }

    /// A resource node has no outgoing dependencies, so it reaches nothing.
    pub proof fn lemma_resource_reaches_nothing(&self, i: int, b: int)
        requires
            self.wf(),
            self.is_resource_node(i),
        ensures
            !self.reaches(i, b),
    {
        if self.reaches(i, b) {
            let path = choose|path: Seq<Node>| #[trigger]
                crate::graph::is_path(dag_edges(self.graph), path) && path[0] == self.nodes@[i] && path.last()
                    == self.nodes@[b];
            assert(crate::graph::path_step(dag_edges(self.graph), path, 0));
            let k = choose|k: int|
                0 <= k < self.edges@.len() && self.nodes@[#[trigger] self.edges@[k].src as int] == path[0]
                    && self.nodes@[self.edges@[k].dst as int] == path[1];
            assert(self.edges@[k].src as int == i);
        }
    }

    /// Finds the task node with `key`, if any.
    pub fn get_task_node(&self, key: &KeyObj) -> (r: Option<TaskNode>)
        requires
            self.wf(),
        ensures
            r matches Some(n) ==> self.is_task_node(n.0 as int) && self.node_key(n.0 as int) == key@,
            r is None ==> forall|i: int| #[trigger] self.is_task_node(i) ==> self.node_key(i) != key@,
    {
        match self.find_task_node(key) {
            Some(i) => Some(TaskNode(i)),
            None => None,
        }
    }

    /// Creates an empty store.
    pub fn new() -> (r: Store<T>)
        ensures
            r.wf(),
            r.len() == 0,
            r.edge_seq().len() == 0,
    {
        let r = Store { graph: dag_new(), nodes: Vec::new(), data: Vec::new(), edges: Vec::new() };
        proof {
            assert(r.edge_seq() =~= Seq::<EdgeView>::empty());
        }
        r
    }

    /// Finds the task node with `key`.
    fn find_task_node(&self, key: &KeyObj) -> (r: Option<usize>)
        requires
            self.wf(),
        ensures
            r matches Some(i) ==> self.is_task_node(i as int) && self.node_key(i as int) == key@,
            r is None ==> forall|i: int| 0 <= i < self.len() && #[trigger] self.is_task_node(i) ==> self.node_key(i)
                != key@,
    {
        let mut i: usize = 0;
        while i < self.data.len()
            invariant
                self.wf(),
                i <= self.data@.len(),
                forall|j: int| 0 <= j < i && #[trigger] self.is_task_node(j) ==> self.node_key(j) != key@,
            decreases self.data@.len() - i,
        {
            match &self.data[i] {
                NodeData::Task { key: k, .. } => {
                    if k.equals(key) {
                        return Some(i);
                    }
                },
                NodeData::Resource { .. } => {},
            }
            i = i + 1;
        }
        None
    }

    /// Finds the resource node for `resource`.
    fn find_resource_node(&self, resource: &KeyObj) -> (r: Option<usize>)
        requires
            self.wf(),
        ensures
            r matches Some(i) ==> self.is_resource_node(i as int) && self.node_key(i as int) == resource@,
            r is None ==> forall|i: int| 0 <= i < self.len() && #[trigger] self.is_resource_node(i) ==> self.node_key(
                i,
            ) != resource@,
    {
        let mut i: usize = 0;
        while i < self.data.len()
            invariant
                self.wf(),
                i <= self.data@.len(),
                forall|j: int| 0 <= j < i && #[trigger] self.is_resource_node(j) ==> self.node_key(j) != resource@,
            decreases self.data@.len() - i,
        {
            match &self.data[i] {
                NodeData::Resource { resource: k } => {
                    if k.equals(resource) {
                        return Some(i);
                    }
                },
                NodeData::Task { .. } => {},
            }
            i = i + 1;
        }
        None
    }

    /// Adds a node with `data`.
    fn add_node(&mut self, data: NodeData<T>) -> (r: usize)
        requires
            old(self).wf(),
            match data {
                NodeData::Task { key, .. } => forall|i: int|
                    0 <= i < old(self).len() && #[trigger] old(self).is_task_node(i) ==> old(self).node_key(i)
                        != key@,
                NodeData::Resource { resource } => forall|i: int|
                    0 <= i < old(self).len() && #[trigger] old(self).is_resource_node(i) ==> old(self).node_key(i)
                        != resource@,
            },
        ensures
            final(self).wf(),
            r == old(self).len(),
            final(self).len() == old(self).len() + 1,
            final(self).data@ == old(self).data@.push(data),
            final(self).edges@ == old(self).edges@,
            final(self).extends(old(self)),
            final(self).edge_seq() == old(self).edge_seq(),
            forall|a: int, b: int|
                0 <= a < old(self).len() && 0 <= b < old(self).len() ==> (#[trigger] final(self).reaches(a, b)
                    == old(self).reaches(a, b)),
            forall|b: int| !#[trigger] final(self).reaches(r as int, b),
    {
        let n = dag_add_node(&mut self.graph);
        self.nodes.push(n);
        self.data.push(data);
        let r = (self.nodes.len() - 1) as usize;
        proof {
            assert forall|m: Node| dag_nodes(self.graph).contains(m) implies exists|i: int|
                0 <= i < self.nodes@.len() && #[trigger] self.nodes@[i] == m by {
                if m != n {
                    let i = choose|i: int| 0 <= i < old(self).nodes@.len() && #[trigger] old(self).nodes@[i] == m;
                    assert(self.nodes@[i] == m);
                } else {
                    assert(self.nodes@[r as int] == m);
                }
            }
            assert forall|i: int, j: int|
                0 <= i < self.data@.len() && 0 <= j < self.data@.len() && i != j && self.data@[i] is Task
                    && self.data@[j] is Task implies key_of_data(#[trigger] self.data@[i]) != key_of_data(
                #[trigger] self.data@[j],
            ) by {
                if i != r && j != r {
                    assert(old(self).node_key(i) == self.node_key(i));
                    assert(old(self).node_key(j) == self.node_key(j));
                } else if i == r {
                    assert(old(self).is_task_node(j));
                    assert(old(self).node_key(j) == self.node_key(j));
                } else {
                    assert(old(self).is_task_node(i));
                    assert(old(self).node_key(i) == self.node_key(i));
                }
            }
            assert forall|i: int, j: int|
                0 <= i < self.data@.len() && 0 <= j < self.data@.len() && i != j && self.data@[i] is Resource
                    && self.data@[j] is Resource implies key_of_data(#[trigger] self.data@[i]) != key_of_data(
                #[trigger] self.data@[j],
            ) by {
                if i != r && j != r {
                    assert(old(self).node_key(i) == self.node_key(i));
                    assert(old(self).node_key(j) == self.node_key(j));
                } else if i == r {
                    assert(old(self).is_resource_node(j));
                    assert(old(self).node_key(j) == self.node_key(j));
                } else {
                    assert(old(self).is_resource_node(i));
                    assert(old(self).node_key(i) == self.node_key(i));
                }
            }
            assert forall|i: int| 0 <= i < old(self).len() implies (#[trigger] self.is_task_node(i)
                == old(self).is_task_node(i) && self.is_resource_node(i) == old(self).is_resource_node(i)
                && self.node_key(i) == old(self).node_key(i) && self.task_of(i) == old(self).task_of(i)) by {
                assert(self.data@[i] == old(self).data@[i]);
            }
            assert(self.edge_seq() =~= old(self).edge_seq());
            assert forall|a: int, b: int| 0 <= a < old(self).len() && 0 <= b < old(self).len() implies (
            #[trigger] self.reaches(a, b) == old(self).reaches(a, b)) by {
                assert(self.nodes@[a] == old(self).nodes@[a]);
                assert(self.nodes@[b] == old(self).nodes@[b]);
            }
            assert forall|b: int| !#[trigger] self.reaches(r as int, b) by {
                if self.reaches(r as int, b) {
                    let path = choose|path: Seq<Node>| #[trigger]
                        crate::graph::is_path(dag_edges(self.graph), path) && path[0] == self.nodes@[r as int]
                            && path.last() == self.nodes@[b];
                    assert(crate::graph::path_step(dag_edges(self.graph), path, 0));
                    assert(dag_edges(old(self).graph).contains((n, path[1])));
                }
            }
        }
        r
    }

    /// Gets the task node for `task` with `key`, or creates a task node by adding it to the dependency graph.
    pub fn get_or_create_task_node(&mut self, task: &T, key: &KeyObj) -> (r: TaskNode)
        where
            T: Clone,
        requires
            old(self).wf(),
        ensures
            final(self).wf(),
            final(self).extends(old(self)),
            final(self).is_task_node(r.0 as int),
            final(self).node_key(r.0 as int) == key@,
            final(self).edge_seq() == old(self).edge_seq(),
            (r.0 as int) < old(self).len() ==> *final(self) == *old(self),
            (r.0 as int) >= old(self).len() ==> final(self).output_of(r.0 as int) is None && final(self).len()
                == old(self).len() + 1 && forall|b: int| !#[trigger] final(self).reaches(r.0 as int, b),
            forall|i: int| 0 <= i < old(self).len() ==> #[trigger] final(self).output_of(i) == old(self).output_of(i),
            forall|a: int, b: int|
                0 <= a < old(self).len() && 0 <= b < old(self).len() ==> (#[trigger] final(self).reaches(a, b)
                    == old(self).reaches(a, b)),
    {
        match self.find_task_node(key) {
            Some(i) => TaskNode(i),
            None => {
                let data = NodeData::Task { task: task.clone(), key: key.copy(), output: None };
                let i = self.add_node(data);
                proof {
                    assert forall|j: int| 0 <= j < old(self).len() implies #[trigger] self.output_of(j)
                        == old(self).output_of(j) by {
                        assert(self.data@[j] == old(self).data@[j]);
                    }
                }
                TaskNode(i)
            },
        }
    }

    /// Gets the task of task `node`.
    pub fn get_task(&self, node: &TaskNode) -> (r: &T)
        requires
            self.wf(),
            self.is_task_node(node.0 as int),
        ensures
            *r == self.task_of(node.0 as int),
    {
        match &self.data[node.0] {
            NodeData::Task { task, .. } => task,
            NodeData::Resource { .. } => vstd::pervasive::unreached(),
        }
    }

    /// Gets the key of task `node`.
    pub fn get_task_key(&self, node: &TaskNode) -> (r: &KeyObj)
        requires
            self.wf(),
            self.is_task_node(node.0 as int),
        ensures
            r@ == self.node_key(node.0 as int),
    {
        match &self.data[node.0] {
            NodeData::Task { key, .. } => key,
            NodeData::Resource { resource } => resource,
        }
    }

    /// Gets the resource node for `resource`, or creates a resource node by adding it to the dependency graph.
    pub fn get_or_create_resource_node(&mut self, resource: &KeyObj) -> (r: ResourceNode)
        requires
            old(self).wf(),
        ensures
            final(self).wf(),
            final(self).extends(old(self)),
            final(self).is_resource_node(r.0 as int),
            final(self).node_key(r.0 as int) == resource@,
            final(self).edge_seq() == old(self).edge_seq(),
            (r.0 as int) < old(self).len() ==> *final(self) == *old(self),
            (r.0 as int) >= old(self).len() ==> forall|i: int|
                #[trigger] old(self).is_resource_node(i) ==> old(self).node_key(i) != resource@,
            forall|i: int| 0 <= i < old(self).len() ==> #[trigger] final(self).output_of(i) == old(self).output_of(i),
            forall|a: int, b: int|
                0 <= a < old(self).len() && 0 <= b < old(self).len() ==> (#[trigger] final(self).reaches(a, b)
                    == old(self).reaches(a, b)),
    {
        match self.find_resource_node(resource) {
            Some(i) => ResourceNode(i),
            None => {
                let data = NodeData::Resource { resource: resource.copy() };
                let i = self.add_node(data);
                proof {
                    assert forall|j: int| 0 <= j < old(self).len() implies #[trigger] self.output_of(j)
                        == old(self).output_of(j) by {
                        assert(self.data@[j] == old(self).data@[j]);
                    }
                }
                ResourceNode(i)
            },
        }
    }

    /// Gets the resource of resource `node`.
    pub fn get_resource(&self, node: &ResourceNode) -> (r: &KeyObj)
        requires
            self.wf(),
            self.is_resource_node(node.0 as int),
        ensures
            r@ == self.node_key(node.0 as int),
    {
        match &self.data[node.0] {
            NodeData::Task { key, .. } => key,
            NodeData::Resource { resource } => resource,
        }
    }

    /// Gets the output of task `node`.
    pub fn get_task_output(&self, node: &TaskNode) -> (r: Option<&ValueObj>)
        requires
            self.wf(),
            self.is_task_node(node.0 as int),
        ensures
            r matches Some(o) ==> self.output_of(node.0 as int) == Some(o@),
            r is None ==> self.output_of(node.0 as int) is None,
    {
        match &self.data[node.0] {
            NodeData::Task { output, .. } => match output {
                Some(o) => Some(o),
                None => None,
            },
            NodeData::Resource { .. } => None,
        }
    }

    /// Sets the output of task `node` to `new_output`.
    pub fn set_task_output(&mut self, node: &TaskNode, new_output: ValueObj)
        requires
            old(self).wf(),
            old(self).is_task_node(node.0 as int),
        ensures
            final(self).wf(),
            final(self).extends(old(self)),
            final(self).len() == old(self).len(),
            final(self).edge_seq() == old(self).edge_seq(),
            final(self).output_of(node.0 as int) == Some(new_output@),
            forall|i: int| 0 <= i < old(self).len() && i != node.0 ==> #[trigger] final(self).output_of(i)
                == old(self).output_of(i),
            forall|a: int, b: int| #[trigger] final(self).reaches(a, b) == old(self).reaches(a, b),
    {
        let ghost old_data = self.data@;
        let i = node.0;
        let mut taken = NodeData::Resource { resource: KeyObj::new(ValueObj::Unit) };
        std::mem::swap(&mut taken, &mut self.data[i]);
        let updated = match taken {
            NodeData::Task { task, key, .. } => NodeData::Task { task, key, output: Some(new_output) },
            NodeData::Resource { resource } => NodeData::Resource { resource },
        };
        self.data.set(i, updated);
        proof {
            assert(self.data@ == old_data.update(i as int, updated));
            self.lemma_data_update_keeps_wf(*old(self), i as int);
        }
    }

    /// Replacing the data of a node by data of the same kind and key keeps the store well formed.
    proof fn lemma_data_update_keeps_wf(&self, old: Store<T>, i: int)
        requires
            old.wf(),
            0 <= i < old.len(),
            self.graph == old.graph,
            self.nodes == old.nodes,
            self.edges == old.edges,
            self.data@.len() == old.data@.len(),
            forall|j: int| 0 <= j < old.len() && j != i ==> #[trigger] self.data@[j] == old.data@[j],
            self.data@[i] is Task == old.data@[i] is Task,
            self.data@[i] is Resource == old.data@[i] is Resource,
            self.node_key(i) == old.node_key(i),
            self.task_of(i) == old.task_of(i),
        ensures
            self.wf(),
            self.extends(&old),
            self.edge_seq() == old.edge_seq(),
            forall|a: int, b: int| #[trigger] self.reaches(a, b) == old.reaches(a, b),
    {
        assert forall|j: int| 0 <= j < old.len() implies #[trigger] self.node_key(j) == old.node_key(j) by {
            if j != i {
                assert(self.data@[j] == old.data@[j]);
            }
        }
        assert forall|j: int| 0 <= j < old.len() implies (#[trigger] self.is_task_node(j) == old.is_task_node(j)
            && self.is_resource_node(j) == old.is_resource_node(j) && self.node_key(j) == old.node_key(j)
            && self.task_of(j) == old.task_of(j)) by {
            if j != i {
                assert(self.data@[j] == old.data@[j]);
            }
        }
        assert forall|k: int| 0 <= k < self.edges@.len() implies {
            let e = #[trigger] self.edges@[k];
            &&& (e.dependency is Read || e.dependency is Write) ==> self.data@[e.dst as int] is Resource
            &&& (e.dependency is Require || e.dependency is ReservedRequire) ==> self.data@[e.dst as int] is Task
            &&& self.data@[e.src as int] is Task
        } by {
            let e = self.edges@[k];
            assert(old.edges@[k] == e);
        }
        assert forall|a: int, b: int|
            0 <= a < self.data@.len() && 0 <= b < self.data@.len() && a != b && self.data@[a] is Task
                && self.data@[b] is Task implies #[trigger] self.node_key(a) != #[trigger] self.node_key(b) by {
            assert(old.is_task_node(a) && old.is_task_node(b));
        }
        assert forall|a: int, b: int|
            0 <= a < self.data@.len() && 0 <= b < self.data@.len() && a != b && self.data@[a] is Resource
                && self.data@[b] is Resource implies #[trigger] self.node_key(a) != #[trigger] self.node_key(b) by {
            assert(old.is_resource_node(a) && old.is_resource_node(b));
        }
    }

    /// Compares task `node_a` and task `node_b` topologically.
    pub fn topologically_compare(&self, node_a: &TaskNode, node_b: &TaskNode) -> (r: TopoOrder)
        requires
            self.wf(),
            (node_a.0 as int) < self.len(),
            (node_b.0 as int) < self.len(),
        ensures
            r == TopoOrder::Before <==> self.topo(node_a.0 as int) < self.topo(node_b.0 as int),
            r == TopoOrder::Same <==> self.topo(node_a.0 as int) == self.topo(node_b.0 as int),
            r == TopoOrder::After <==> self.topo(node_a.0 as int) > self.topo(node_b.0 as int),
    {
        dag_topo_relation(&self.graph, &self.nodes[node_a.0], &self.nodes[node_b.0])
    }

    /// Checks whether there is a direct or transitive dependency from task `src` to task `dst`.
    pub fn contains_transitive_task_dependency(&self, src: &TaskNode, dst: &TaskNode) -> (r: bool)
        requires
            self.wf(),
            (src.0 as int) < self.len(),
            (dst.0 as int) < self.len(),
        ensures
            r == (src.0 != dst.0 && self.reaches(src.0 as int, dst.0 as int)),
    {
        dag_contains_transitive_edge(&self.graph, &self.nodes[src.0], &self.nodes[dst.0])
    }
}


/// Taking one more element of a sequence extends its filtered prefix by that element when it passes the filter.
pub proof fn lemma_take_filter_step<A>(s: Seq<A>, p: spec_fn(A) -> bool, i: int)
    requires
        0 <= i < s.len(),
    ensures
        s.take(i + 1).filter(p) == (if p(s[i]) {
            s.take(i).filter(p).push(s[i])
        } else {
            s.take(i).filter(p)
        }),
{
    assert(s.take(i + 1) =~= s.take(i).push(s[i]));
    s.take(i).lemma_filter_push(s[i], p);
}

/// Every element of `edges.filter(p)` is an element of `edges` that passes `p`.
pub proof fn lemma_filter_element<A>(edges: Seq<A>, p: spec_fn(A) -> bool, k: int)
    requires
        0 <= k < edges.filter(p).len(),
    ensures
        p(edges.filter(p)[k]),
        exists|j: int| 0 <= j < edges.len() && edges[j] == #[trigger] edges.filter(p)[k],
{
    edges.lemma_filter_pred(p, k);
    assert(edges.filter(p).contains(edges.filter(p)[k]));
    edges.lemma_filter_contains_rev(p, edges.filter(p)[k]);
}

impl<T> Store<T> {
    /// The sources of the read and write dependencies to a node are task nodes, and the node is a resource node.
    pub proof fn lemma_reads_or_writes_to_valid(&self, dst: int)
        requires
            self.wf(),
        ensures
            forall|k: int|
                0 <= k < reads_or_writes_to(self.edge_seq(), dst).len() ==> self.is_task_node(
                    (#[trigger] reads_or_writes_to(self.edge_seq(), dst)[k]).src,
                ) && reads_or_writes_to(self.edge_seq(), dst)[k].dst == dst && is_read_or_write(
                    reads_or_writes_to(self.edge_seq(), dst)[k].dependency,
                ),
    {
        self.lemma_edge_bounds();
        assert forall|k: int| 0 <= k < reads_or_writes_to(self.edge_seq(), dst).len() implies self.is_task_node(
            (#[trigger] reads_or_writes_to(self.edge_seq(), dst)[k]).src,
        ) && reads_or_writes_to(self.edge_seq(), dst)[k].dst == dst && is_read_or_write(
            reads_or_writes_to(self.edge_seq(), dst)[k].dependency,
        ) by {
            lemma_filter_element(
                self.edge_seq(),
                |e: EdgeView| e.dst == dst && is_read_or_write(e.dependency),
                k,
            );
        }
    }

    /// The sources of the read dependencies to a node are task nodes.
    pub proof fn lemma_reads_to_valid(&self, dst: int)
        requires
            self.wf(),
        ensures
            forall|k: int|
                0 <= k < reads_to(self.edge_seq(), dst).len() ==> self.is_task_node(
                    (#[trigger] reads_to(self.edge_seq(), dst)[k]).src,
                ),
    {
        self.lemma_edge_bounds();
        assert forall|k: int| 0 <= k < reads_to(self.edge_seq(), dst).len() implies self.is_task_node(
            (#[trigger] reads_to(self.edge_seq(), dst)[k]).src,
        ) by {
            lemma_filter_element(self.edge_seq(), |e: EdgeView| e.dst == dst && is_read(e.dependency), k);
        }
    }

    /// The sources of the require dependencies to a node are task nodes.
    pub proof fn lemma_requires_to_valid(&self, dst: int)
        requires
            self.wf(),
        ensures
            forall|k: int|
                0 <= k < requires_to(self.edge_seq(), dst).len() ==> self.is_task_node(
                    (#[trigger] requires_to(self.edge_seq(), dst)[k]).src,
                ),
    {
        self.lemma_edge_bounds();
        assert forall|k: int| 0 <= k < requires_to(self.edge_seq(), dst).len() implies self.is_task_node(
            (#[trigger] requires_to(self.edge_seq(), dst)[k]).src,
        ) by {
            lemma_filter_element(self.edge_seq(), |e: EdgeView| e.dst == dst && is_require(e.dependency), k);
        }
    }

    /// The destinations of the write dependencies from a node are resource nodes.
    pub proof fn lemma_writes_from_valid(&self, src: int)
        requires
            self.wf(),
        ensures
            forall|k: int|
                0 <= k < writes_from(self.edge_seq(), src).len() ==> self.is_resource_node(
                    (#[trigger] writes_from(self.edge_seq(), src)[k]).dst,
                ),
    {
        self.lemma_edge_bounds();
        assert forall|k: int| 0 <= k < writes_from(self.edge_seq(), src).len() implies self.is_resource_node(
            (#[trigger] writes_from(self.edge_seq(), src)[k]).dst,
        ) by {
            lemma_filter_element(self.edge_seq(), |e: EdgeView| e.src == src && is_write(e.dependency), k);
        }
    }
}

/// The edges that leave node `src`.
pub open spec fn edges_from(edges: Seq<EdgeView>, src: int) -> Seq<EdgeView> {
    edges.filter(|e: EdgeView| e.src == src)
}

/// The read dependencies that enter node `dst`.
pub open spec fn reads_to(edges: Seq<EdgeView>, dst: int) -> Seq<EdgeView> {
    edges.filter(|e: EdgeView| e.dst == dst && is_read(e.dependency))
}

/// The write dependencies that enter node `dst`.
pub open spec fn writes_to(edges: Seq<EdgeView>, dst: int) -> Seq<EdgeView> {
    edges.filter(|e: EdgeView| e.dst == dst && is_write(e.dependency))
}

/// The read and write dependencies that enter node `dst`.
pub open spec fn reads_or_writes_to(edges: Seq<EdgeView>, dst: int) -> Seq<EdgeView> {
    edges.filter(|e: EdgeView| e.dst == dst && is_read_or_write(e.dependency))
}

/// The require dependencies that enter node `dst`.
pub open spec fn requires_to(edges: Seq<EdgeView>, dst: int) -> Seq<EdgeView> {
    edges.filter(|e: EdgeView| e.dst == dst && is_require(e.dependency))
}

/// The write dependencies that leave node `src`.
pub open spec fn writes_from(edges: Seq<EdgeView>, src: int) -> Seq<EdgeView> {
    edges.filter(|e: EdgeView| e.src == src && is_write(e.dependency))
}

/// Read dependencies.
pub open spec fn is_read(d: DependencyView) -> bool {
    d is Read
}

/// Write dependencies.
pub open spec fn is_write(d: DependencyView) -> bool {
    d is Write
}

/// Read or write dependencies.
pub open spec fn is_read_or_write(d: DependencyView) -> bool {
    d is Read || d is Write
}

/// Require dependencies.
pub open spec fn is_require(d: DependencyView) -> bool {
    d is Require
}

/// The resource dependency inside a read or write dependency.
pub open spec fn resource_dependency_of(d: DependencyView) -> crate::dependency::ResourceDependencyView {
    match d {
        DependencyView::Read(r) => r,
        DependencyView::Write(r) => r,
        _ => arbitrary(),
    }
}

/// The task dependency inside a require dependency.
pub open spec fn task_dependency_of(d: DependencyView) -> crate::dependency::TaskDependencyView {
    match d {
        DependencyView::Require(t) => t,
        _ => arbitrary(),
    }
}

impl<T> Store<T> {
    /// Gets all dependencies from task `src`, in insertion order.
    pub fn get_dependencies_from_task(&self, src: &TaskNode) -> (r: Vec<Dependency>)
        requires
            self.wf(),
        ensures
            r@.map_values(|d: Dependency| d@) == edges_from(self.edge_seq(), src.0 as int).map_values(
                |e: EdgeView| e.dependency,
            ),
    {
        let ghost s0: int = src.0 as int;
        let ghost p = |e: EdgeView| e.src == s0;
        let mut r: Vec<Dependency> = Vec::new();
        let mut i: usize = 0;
        while i < self.edges.len()
            invariant
                i <= self.edges@.len(),
                s0 == src.0,
                p == (|e: EdgeView| e.src == s0),
                self.edge_seq() == self.edges@.map_values(|e: Edge| edge_view(e)),
                r@.map_values(|d: Dependency| d@) == self.edge_seq().take(i as int).filter(p).map_values(
                    |e: EdgeView| e.dependency,
                ),
            decreases self.edges@.len() - i,
        {
            proof {
                lemma_take_filter_step(self.edge_seq(), p, i as int);
                assert(self.edge_seq()[i as int] == edge_view(self.edges@[i as int]));
            }
            let ghost before = r@;
            if self.edges[i].src == src.0 {
                r.push(self.edges[i].dependency.copy());
                assert(r@.map_values(|d: Dependency| d@) =~= before.map_values(|d: Dependency| d@).push(
                    self.edge_seq()[i as int].dependency,
                ));
            }
            assert(r@.map_values(|d: Dependency| d@) =~= self.edge_seq().take(i + 1).filter(p).map_values(
                |e: EdgeView| e.dependency,
            ));
            i = i + 1;
            assert(r@.map_values(|d: Dependency| d@) =~= self.edge_seq().take(i as int).filter(p).map_values(
                |e: EdgeView| e.dependency,
            ));
        }
        assert(self.edge_seq().take(i as int) =~= self.edge_seq());
        r
    }

    /// Gets all task nodes that read from resource `dst`, in insertion order.
    pub fn get_tasks_reading_from_resource(&self, dst: &ResourceNode) -> (r: Vec<TaskNode>)
        requires
            self.wf(),
        ensures
            r@.map_values(|t: TaskNode| t.0 as int) == reads_to(self.edge_seq(), dst.0 as int).map_values(
                |e: EdgeView| e.src,
            ),
    {
        let ghost d0: int = dst.0 as int;
        let ghost p = |e: EdgeView| e.dst == d0 && is_read(e.dependency);
        assert(reads_to(self.edge_seq(), dst.0 as int) =~= self.edge_seq().filter(p)) by {
            assert((|e: EdgeView| e.dst == dst.0 as int && is_read(e.dependency)) =~= p);
        }
        let mut r: Vec<TaskNode> = Vec::new();
        let mut i: usize = 0;
        while i < self.edges.len()
            invariant
                i <= self.edges@.len(),
                d0 == dst.0,
                p == (|e: EdgeView| e.dst == d0 && is_read(e.dependency)),
                self.edge_seq() == self.edges@.map_values(|e: Edge| edge_view(e)),
                r@.map_values(|t: TaskNode| t.0 as int) == self.edge_seq().take(i as int).filter(p).map_values(
                    |e: EdgeView| e.src,
                ),
            decreases self.edges@.len() - i,
        {
            proof {
                lemma_take_filter_step(self.edge_seq(), p, i as int);
                assert(self.edge_seq()[i as int] == edge_view(self.edges@[i as int]));
            }
            let ghost before = r@;
            if self.edges[i].dst == dst.0 && self.edges[i].dependency.is_read() {
                r.push(TaskNode(self.edges[i].src));
                assert(r@.map_values(|t: TaskNode| t.0 as int) =~= before.map_values(|t: TaskNode| t.0 as int).push(
                    self.edge_seq()[i as int].src,
                ));
            }
            i = i + 1;
            assert(r@.map_values(|t: TaskNode| t.0 as int) =~= self.edge_seq().take(i as int).filter(p).map_values(
                |e: EdgeView| e.src,
            ));
        }
        assert(self.edge_seq().take(i as int) =~= self.edge_seq());
        r
    }
}

impl<T> Store<T> {
    /// Gets the task node that writes to resource `dst`: the first writer in insertion order, or `None` if there is
    /// none.
    pub fn get_task_writing_to_resource(&self, dst: &ResourceNode) -> (r: Option<TaskNode>)
        requires
            self.wf(),
        ensures
            r is None <==> writes_to(self.edge_seq(), dst.0 as int).len() == 0,
            r matches Some(t) ==> t.0 as int == writes_to(self.edge_seq(), dst.0 as int)[0].src,
    {
        let ghost d0: int = dst.0 as int;
        let ghost p = |e: EdgeView| e.dst == d0 && is_write(e.dependency);
        assert(writes_to(self.edge_seq(), dst.0 as int) =~= self.edge_seq().filter(p)) by {
            assert((|e: EdgeView| e.dst == dst.0 as int && is_write(e.dependency)) =~= p);
        }
        let mut i: usize = 0;
        while i < self.edges.len()
            invariant
                i <= self.edges@.len(),
                d0 == dst.0,
                p == (|e: EdgeView| e.dst == d0 && is_write(e.dependency)),
                self.edge_seq() == self.edges@.map_values(|e: Edge| edge_view(e)),
                writes_to(self.edge_seq(), dst.0 as int) == self.edge_seq().filter(p),
                self.edge_seq().take(i as int).filter(p).len() == 0,
            decreases self.edges@.len() - i,
        {
            proof {
                lemma_take_filter_step(self.edge_seq(), p, i as int);
                assert(self.edge_seq()[i as int] == edge_view(self.edges@[i as int]));
            }
            if self.edges[i].dst == dst.0 && self.edges[i].dependency.is_write() {
                proof {
                    let s = self.edge_seq();
                    assert(s.take(i as int).filter(p) =~= Seq::<EdgeView>::empty());
                    assert(s.take(i as int + 1).filter(p) =~= seq![s[i as int]]);
                    assert(s =~= s.take(i as int + 1) + s.skip(i as int + 1));
                    Seq::filter_distributes_over_add(s.take(i as int + 1), s.skip(i as int + 1), p);
                    assert(s.filter(p) == seq![s[i as int]] + s.skip(i as int + 1).filter(p));
                    assert(s.filter(p)[0] == s[i as int]);
                }
                return Some(TaskNode(self.edges[i].src));
            }
            i = i + 1;
        }
        assert(self.edge_seq().take(i as int) =~= self.edge_seq());
        None
    }

    /// Gets all task nodes and their dependencies that read from resource `dst`, in insertion order.
    pub fn get_read_dependencies_to_resource(&self, dst: &ResourceNode) -> (r: Vec<(TaskNode, ResourceDependency)>)
        requires
            self.wf(),
        ensures
            r@.map_values(|x: (TaskNode, ResourceDependency)| (x.0.0 as int, x.1@)) == reads_to(self.edge_seq(), dst.0 as int).map_values(|e: EdgeView| (e.src, resource_dependency_of(e.dependency))),
    {
        let ghost d0: int = dst.0 as int;
        let ghost p = |e: EdgeView| e.dst == d0 && is_read(e.dependency);
        assert(reads_to(self.edge_seq(), dst.0 as int) =~= self.edge_seq().filter(p)) by {
            assert((|e: EdgeView| e.dst == dst.0 as int && is_read(e.dependency)) =~= p);
        }
        let mut r: Vec<(TaskNode, ResourceDependency)> = Vec::new();
        let mut i: usize = 0;
        while i < self.edges.len()
            invariant
                i <= self.edges@.len(),
                d0 == dst.0,
                p == (|e: EdgeView| e.dst == d0 && is_read(e.dependency)),
                self.edge_seq() == self.edges@.map_values(|e: Edge| edge_view(e)),
                r@.map_values(|x: (TaskNode, ResourceDependency)| (x.0.0 as int, x.1@)) == self.edge_seq().take(
                    i as int,
                ).filter(p).map_values(|e: EdgeView| (e.src, resource_dependency_of(e.dependency))),
            decreases self.edges@.len() - i,
        {
            proof {
                lemma_take_filter_step(self.edge_seq(), p, i as int);
                assert(self.edge_seq()[i as int] == edge_view(self.edges@[i as int]));
            }
            let ghost before = r@;
            if self.edges[i].dst == dst.0 {
                match &self.edges[i].dependency {
                    Dependency::Read(rd) => {
                        r.push((TaskNode(self.edges[i].src), rd.copy()));
                        assert(r@.map_values(|x: (TaskNode, ResourceDependency)| (x.0.0 as int, x.1@))
                            =~= before.map_values(|x: (TaskNode, ResourceDependency)| (x.0.0 as int, x.1@)).push(
                            (self.edge_seq()[i as int].src, resource_dependency_of(self.edge_seq()[i as int].dependency)),
                        ));
                    },
                    _ => {},
                }
            }
            i = i + 1;
            assert(r@.map_values(|x: (TaskNode, ResourceDependency)| (x.0.0 as int, x.1@)) =~= self.edge_seq().take(
                i as int,
            ).filter(p).map_values(|e: EdgeView| (e.src, resource_dependency_of(e.dependency))));
        }
        assert(self.edge_seq().take(i as int) =~= self.edge_seq());
        r
    }

    /// Gets all task nodes and their dependencies that read from or write to resource `dst`, in insertion order.
    pub fn get_read_and_write_dependencies_to_resource(&self, dst: &ResourceNode) -> (r: Vec<(TaskNode, ResourceDependency)>)
        requires
            self.wf(),
        ensures
            r@.map_values(|x: (TaskNode, ResourceDependency)| (x.0.0 as int, x.1@)) == reads_or_writes_to(self.edge_seq(), dst.0 as int).map_values(|e: EdgeView| (e.src, resource_dependency_of(e.dependency))),
    {
        let ghost d0: int = dst.0 as int;
        let ghost p = |e: EdgeView| e.dst == d0 && is_read_or_write(e.dependency);
        assert(reads_or_writes_to(self.edge_seq(), dst.0 as int) =~= self.edge_seq().filter(p)) by {
            assert((|e: EdgeView| e.dst == dst.0 as int && is_read_or_write(e.dependency)) =~= p);
        }
        let mut r: Vec<(TaskNode, ResourceDependency)> = Vec::new();
        let mut i: usize = 0;
        while i < self.edges.len()
            invariant
                i <= self.edges@.len(),
                d0 == dst.0,
                p == (|e: EdgeView| e.dst == d0 && is_read_or_write(e.dependency)),
                self.edge_seq() == self.edges@.map_values(|e: Edge| edge_view(e)),
                r@.map_values(|x: (TaskNode, ResourceDependency)| (x.0.0 as int, x.1@)) == self.edge_seq().take(
                    i as int,
                ).filter(p).map_values(|e: EdgeView| (e.src, resource_dependency_of(e.dependency))),
            decreases self.edges@.len() - i,
        {
            proof {
                lemma_take_filter_step(self.edge_seq(), p, i as int);
                assert(self.edge_seq()[i as int] == edge_view(self.edges@[i as int]));
            }
            let ghost before = r@;
            if self.edges[i].dst == dst.0 {
                match &self.edges[i].dependency {
                    Dependency::Read(rd) | Dependency::Write(rd) => {
                        r.push((TaskNode(self.edges[i].src), rd.copy()));
                        assert(r@.map_values(|x: (TaskNode, ResourceDependency)| (x.0.0 as int, x.1@))
                            =~= before.map_values(|x: (TaskNode, ResourceDependency)| (x.0.0 as int, x.1@)).push(
                            (self.edge_seq()[i as int].src, resource_dependency_of(self.edge_seq()[i as int].dependency)),
                        ));
                    },
                    _ => {},
                }
            }
            i = i + 1;
            assert(r@.map_values(|x: (TaskNode, ResourceDependency)| (x.0.0 as int, x.1@)) =~= self.edge_seq().take(
                i as int,
            ).filter(p).map_values(|e: EdgeView| (e.src, resource_dependency_of(e.dependency))));
        }
        assert(self.edge_seq().take(i as int) =~= self.edge_seq());
        r
    }

    /// Gets all task nodes and their require dependencies to task `dst`, in insertion order.
    pub fn get_require_dependencies_to_task(&self, dst: &TaskNode) -> (r: Vec<(TaskNode, TaskDependency)>)
        requires
            self.wf(),
        ensures
            r@.map_values(|x: (TaskNode, TaskDependency)| (x.0.0 as int, x.1@)) == requires_to(self.edge_seq(), dst.0 as int).map_values(|e: EdgeView| (e.src, task_dependency_of(e.dependency))),
    {
        let ghost d0: int = dst.0 as int;
        let ghost p = |e: EdgeView| e.dst == d0 && is_require(e.dependency);
        assert(requires_to(self.edge_seq(), dst.0 as int) =~= self.edge_seq().filter(p)) by {
            assert((|e: EdgeView| e.dst == dst.0 as int && is_require(e.dependency)) =~= p);
        }
        let mut r: Vec<(TaskNode, TaskDependency)> = Vec::new();
        let mut i: usize = 0;
        while i < self.edges.len()
            invariant
                i <= self.edges@.len(),
                d0 == dst.0,
                p == (|e: EdgeView| e.dst == d0 && is_require(e.dependency)),
                self.edge_seq() == self.edges@.map_values(|e: Edge| edge_view(e)),
                r@.map_values(|x: (TaskNode, TaskDependency)| (x.0.0 as int, x.1@)) == self.edge_seq().take(
                    i as int,
                ).filter(p).map_values(|e: EdgeView| (e.src, task_dependency_of(e.dependency))),
            decreases self.edges@.len() - i,
        {
            proof {
                lemma_take_filter_step(self.edge_seq(), p, i as int);
                assert(self.edge_seq()[i as int] == edge_view(self.edges@[i as int]));
            }
            let ghost before = r@;
            if self.edges[i].dst == dst.0 {
                match &self.edges[i].dependency {
                    Dependency::Require(td) => {
                        r.push((TaskNode(self.edges[i].src), td.copy()));
                        assert(r@.map_values(|x: (TaskNode, TaskDependency)| (x.0.0 as int, x.1@)) =~= before.map_values(
                            |x: (TaskNode, TaskDependency)| (x.0.0 as int, x.1@),
                        ).push((self.edge_seq()[i as int].src, task_dependency_of(self.edge_seq()[i as int].dependency))));
                    },
                    _ => {},
                }
            }
            i = i + 1;
            assert(r@.map_values(|x: (TaskNode, TaskDependency)| (x.0.0 as int, x.1@)) =~= self.edge_seq().take(
                i as int,
            ).filter(p).map_values(|e: EdgeView| (e.src, task_dependency_of(e.dependency))));
        }
        assert(self.edge_seq().take(i as int) =~= self.edge_seq());
        r
    }

    /// Gets all resource nodes that are written by task `src`, in insertion order.
    pub fn get_resources_written_by(&self, src: &TaskNode) -> (r: Vec<ResourceNode>)
        requires
            self.wf(),
        ensures
            r@.map_values(|n: ResourceNode| n.0 as int) == writes_from(self.edge_seq(), src.0 as int).map_values(
                |e: EdgeView| e.dst,
            ),
    {
        let ghost s0: int = src.0 as int;
        let ghost p = |e: EdgeView| e.src == s0 && is_write(e.dependency);
        assert(writes_from(self.edge_seq(), src.0 as int) =~= self.edge_seq().filter(p)) by {
            assert((|e: EdgeView| e.src == src.0 as int && is_write(e.dependency)) =~= p);
        }
        let mut r: Vec<ResourceNode> = Vec::new();
        let mut i: usize = 0;
        while i < self.edges.len()
            invariant
                i <= self.edges@.len(),
                s0 == src.0,
                p == (|e: EdgeView| e.src == s0 && is_write(e.dependency)),
                self.edge_seq() == self.edges@.map_values(|e: Edge| edge_view(e)),
                r@.map_values(|n: ResourceNode| n.0 as int) == self.edge_seq().take(i as int).filter(p).map_values(
                    |e: EdgeView| e.dst,
                ),
            decreases self.edges@.len() - i,
        {
            proof {
                lemma_take_filter_step(self.edge_seq(), p, i as int);
                assert(self.edge_seq()[i as int] == edge_view(self.edges@[i as int]));
            }
            let ghost before = r@;
            if self.edges[i].src == src.0 && self.edges[i].dependency.is_write() {
                r.push(ResourceNode(self.edges[i].dst));
                assert(r@.map_values(|n: ResourceNode| n.0 as int) =~= before.map_values(|n: ResourceNode| n.0 as int).push(
                    self.edge_seq()[i as int].dst,
                ));
            }
            i = i + 1;
            assert(r@.map_values(|n: ResourceNode| n.0 as int) =~= self.edge_seq().take(i as int).filter(p).map_values(
                |e: EdgeView| e.dst,
            ));
        }
        assert(self.edge_seq().take(i as int) =~= self.edge_seq());
        r
    }
}

/// The edges that do not leave node `src`.
pub open spec fn edges_not_from(edges: Seq<EdgeView>, src: int) -> Seq<EdgeView> {
    edges.filter(|e: EdgeView| e.src != src)
}

/// A dependency of this kind may go to a node of this kind.
pub open spec fn kind_fits<T>(store: Store<T>, dst: int, dependency: DependencyView) -> bool {
    &&& (dependency is Read || dependency is Write) ==> store.is_resource_node(dst)
    &&& (dependency is Require || dependency is ReservedRequire) ==> store.is_task_node(dst)
}

impl<T> Store<T> {
    /// The edge views of a well-formed store describe its edges.
    proof fn lemma_edge_views(&self)
        requires
            self.wf(),
        ensures
            self.edge_seq().len() == self.edges@.len(),
            forall|k: int| 0 <= k < self.edges@.len() ==> #[trigger] self.edge_seq()[k] == edge_view(self.edges@[k]),
    {
    }

    /// Node indices of a well-formed store map to distinct graph nodes.
    proof fn lemma_nodes_distinct(&self, i: int, j: int)
        requires
            self.wf(),
            0 <= i < self.len(),
            0 <= j < self.len(),
            self.nodes@[i] == self.nodes@[j],
        ensures
            i == j,
    {
    }

    /// Adds a `dependency` from task `src` to node `dst`. Returns `Err(())` if this would create a cycle, leaving the
    /// store unchanged. When there already is a dependency from `src` to `dst`, it is kept as it was.
    pub fn add_dependency(&mut self, src: &TaskNode, dst: usize, dependency: Dependency) -> (r: Result<(), ()>)
        requires
            old(self).wf(),
            old(self).is_task_node(src.0 as int),
            (dst as int) < old(self).len(),
            kind_fits(*old(self), dst as int, dependency@),
        ensures
            final(self).wf(),
            final(self).extends(old(self)),
            final(self).len() == old(self).len(),
            forall|i: int| 0 <= i < old(self).len() ==> #[trigger] final(self).output_of(i) == old(self).output_of(i),
            r is Err <==> (src.0 == dst || old(self).reaches(dst as int, src.0 as int)),
            r is Err ==> final(self).edge_seq() == old(self).edge_seq(),
            r is Ok && old(self).has_edge(src.0 as int, dst as int) ==> final(self).edge_seq() == old(self).edge_seq(),
            r is Ok && !old(self).has_edge(src.0 as int, dst as int) ==> final(self).edge_seq()
                == old(self).edge_seq().push(EdgeView { src: src.0 as int, dst: dst as int, dependency: dependency@ }),
            r is Ok ==> final(self).has_edge(src.0 as int, dst as int),
            forall|a: int, b: int| #[trigger] old(self).reaches(a, b) ==> final(self).reaches(a, b),
    {
        let ghost old_self = *self;
        let ns = self.nodes[src.0];
        let nd = self.nodes[dst];
        let added = dag_add_edge(&mut self.graph, &ns, &nd);
        proof {
            old_self.lemma_edge_views();
            if ns == nd {
                old_self.lemma_nodes_distinct(src.0 as int, dst as int);
            }
            if dag_edges(old_self.graph).contains((ns, nd)) {
                let k = choose|k: int|
                    0 <= k < old_self.edges@.len() && old_self.nodes@[#[trigger] old_self.edges@[k].src as int] == ns
                        && old_self.nodes@[old_self.edges@[k].dst as int] == nd;
                old_self.lemma_nodes_distinct(old_self.edges@[k].src as int, src.0 as int);
                old_self.lemma_nodes_distinct(old_self.edges@[k].dst as int, dst as int);
                assert(old_self.edge_seq()[k].src == src.0 as int);
            }
            if old_self.has_edge(src.0 as int, dst as int) {
                let k = choose|k: int|
                    0 <= k < old_self.edge_seq().len() && #[trigger] old_self.edge_seq()[k].src == src.0 as int
                        && old_self.edge_seq()[k].dst == dst as int;
                assert(old_self.edges@[k] == old_self.edges@[k]);
                assert(dag_edges(old_self.graph).contains(
                    (old_self.nodes@[old_self.edges@[k].src as int], old_self.nodes@[old_self.edges@[k].dst as int]),
                ));
            }
        }
        match added {
            Err(_) => {
                proof {
                    assert(crate::graph::both_nodes(old_self.graph, ns, nd));
                    assert(dag_edges(self.graph) == dag_edges(old_self.graph));
                    assert(dag_nodes(self.graph) == dag_nodes(old_self.graph));
                    assert(self.edge_seq() == old_self.edge_seq());
                    self.lemma_same_graph_sets(old_self);
                    assert(self.wf());
                }
                Err(())
            },
            Ok(fresh) => {
                if fresh {
                    self.edges.push(Edge { src: src.0, dst, dependency });
                    proof {
                        let k = self.edges@.len() - 1;
                        assert(self.edges@[k].src == src.0);
                        assert forall|a: Node, b: Node| #[trigger]
                            dag_edges(self.graph).contains((a, b)) implies exists|k: int|
                            0 <= k < self.edges@.len() && self.nodes@[#[trigger] self.edges@[k].src as int] == a
                                && self.nodes@[self.edges@[k].dst as int] == b by {
                            if a == ns && b == nd {
                                assert(self.nodes@[self.edges@[k].src as int] == a);
                            } else {
                                let j = choose|j: int|
                                    0 <= j < old_self.edges@.len() && old_self.nodes@[#[trigger] old_self.edges@[j].src as int]
                                        == a && old_self.nodes@[old_self.edges@[j].dst as int] == b;
                                assert(self.edges@[j] == old_self.edges@[j]);
                            }
                        }
                        assert forall|k1: int, k2: int|
                            0 <= k1 < self.edges@.len() && 0 <= k2 < self.edges@.len() && k1 != k2 implies !(
                            #[trigger] self.edges@[k1].src == #[trigger] self.edges@[k2].src
                                && self.edges@[k1].dst == self.edges@[k2].dst) by {
                            if k1 == k && k2 < k {
                                assert(old_self.edge_seq()[k2].src == old_self.edges@[k2].src);
                            } else if k2 == k && k1 < k {
                                assert(old_self.edge_seq()[k1].src == old_self.edges@[k1].src);
                            }
                        }
                        assert(self.edge_seq() =~= old_self.edge_seq().push(
                            EdgeView { src: src.0 as int, dst: dst as int, dependency: dependency@ },
                        ));
                        assert(self.edge_seq()[k].src == src.0 as int);
                    }
                } else {
                    proof {
                        assert(self.edges@ == old_self.edges@);
                    }
                }
                proof {
                    assert forall|a: int, b: int| #[trigger] old_self.reaches(a, b) implies self.reaches(a, b) by {
                        let path = choose|path: Seq<Node>| #[trigger]
                            crate::graph::is_path(dag_edges(old_self.graph), path) && path[0] == old_self.nodes@[a]
                                && path.last() == old_self.nodes@[b];
                        assert forall|i: int| 0 <= i < path.len() - 1 implies #[trigger] crate::graph::path_step(
                            dag_edges(self.graph),
                            path,
                            i,
                        ) by {
                            assert(crate::graph::path_step(dag_edges(old_self.graph), path, i));
                        }
                        assert(crate::graph::is_path(dag_edges(self.graph), path));
                    }
                }
                Ok(())
            },
        }
    }
}

impl<T> Store<T> {
    /// A store whose graph has the same nodes, edges and well-formedness as that of a well-formed store, with the
    /// same node and edge lists, is well formed and has the same paths.
    proof fn lemma_same_graph_sets(&self, old: Store<T>)
        requires
            old.wf(),
            dag_wf(self.graph),
            dag_nodes(self.graph) == dag_nodes(old.graph),
            dag_edges(self.graph) == dag_edges(old.graph),
            self.nodes == old.nodes,
            self.data == old.data,
            self.edges == old.edges,
        ensures
            self.wf(),
            forall|a: int, b: int| #[trigger] self.reaches(a, b) == old.reaches(a, b),
    {
        assert(self.nodes@ == old.nodes@);
        assert(self.data@ == old.data@);
        assert(self.edges@ == old.edges@);
        assert(forall|i: int| 0 <= i < self.nodes@.len() ==> dag_nodes(self.graph).contains(#[trigger] self.nodes@[i]));
        assert(forall|n: Node| dag_nodes(self.graph).contains(n) ==> exists|i: int|
            0 <= i < self.nodes@.len() && #[trigger] self.nodes@[i] == n);
        assert(forall|k: int|
            0 <= k < self.edges@.len() ==> {
                let e = #[trigger] self.edges@[k];
                &&& e.src < self.nodes@.len()
                &&& e.dst < self.nodes@.len()
                &&& self.data@[e.src as int] is Task
                &&& dag_edges(self.graph).contains((self.nodes@[e.src as int], self.nodes@[e.dst as int]))
                &&& (e.dependency is Read || e.dependency is Write) ==> self.data@[e.dst as int] is Resource
                &&& (e.dependency is Require || e.dependency is ReservedRequire)
                    ==> self.data@[e.dst as int] is Task
            });
        assert(forall|a: Node, b: Node| #[trigger]
            dag_edges(self.graph).contains((a, b)) ==> exists|k: int|
                0 <= k < self.edges@.len() && self.nodes@[#[trigger] self.edges@[k].src as int] == a
                    && self.nodes@[self.edges@[k].dst as int] == b);
        assert(forall|i: int| #[trigger] self.node_key(i) == old.node_key(i));
    }
}

impl<T> Store<T> {
    /// Removes all outgoing edges of node `src`, from the edge list and from the graph.
    fn remove_edges_from(&mut self, src: usize)
        requires
            old(self).wf(),
            (src as int) < old(self).len(),
        ensures
            final(self).wf(),
            final(self).extends(old(self)),
            final(self).len() == old(self).len(),
            final(self).data == old(self).data,
            final(self).edge_seq() == edges_not_from(old(self).edge_seq(), src as int),
    {
        let ghost old_self = *self;
        let ghost p = |e: EdgeView| e.src != src as int;
        let ns = self.nodes[src];
        dag_remove_outgoing_edges(&mut self.graph, &ns);
        let ghost graph = self.graph;
        let mut rest: Vec<Edge> = Vec::new();
        std::mem::swap(&mut rest, &mut self.edges);
        let ghost all = old_self.edge_seq();
        let ghost mut origin: Seq<int> = Seq::empty();
        let mut i: usize = 0;
        proof {
            old_self.lemma_edge_views();
            assert(rest@.skip(0) =~= rest@);
            assert(rest@.len() == rest.len());
            assert(self.edges@.map_values(|e: Edge| edge_view(e)) =~= all.take(0).filter(p)) by {
                reveal(Seq::filter);
            }
        }
        while rest.len() > 0
            invariant
                p == (|e: EdgeView| e.src != src as int),
                all == old_self.edge_seq(),
                all.len() == old_self.edges@.len(),
                forall|k: int| 0 <= k < old_self.edges@.len() ==> #[trigger] all[k] == edge_view(old_self.edges@[k]),
                i <= all.len(),
                all.len() <= usize::MAX,
                rest@ == old_self.edges@.skip(i as int),
                rest@.len() == all.len() - i,
                self.graph == graph,
                self.nodes == old_self.nodes,
                self.data == old_self.data,
                self.edges@.map_values(|e: Edge| edge_view(e)) == all.take(i as int).filter(p),
                origin.len() == self.edges@.len(),
                forall|k: int|
                    0 <= k < origin.len() ==> 0 <= #[trigger] origin[k] < i && self.edges@[k] == old_self.edges@[origin[k]]
                        && old_self.edges@[origin[k]].src != src,
                forall|k1: int, k2: int| 0 <= k1 < k2 < origin.len() ==> #[trigger] origin[k1] < #[trigger] origin[k2],
            decreases rest@.len(),
        {
            let e = rest.remove(0);
            proof {
                assert(e == old_self.edges@[i as int]);
                lemma_take_filter_step(all, p, i as int);
            }
            let ghost before = self.edges@;
            if e.src != src {
                self.edges.push(e);
                proof {
                    assert(self.edges@.map_values(|e: Edge| edge_view(e)) =~= before.map_values(|e: Edge| edge_view(e)).push(
                        all[i as int],
                    ));
                    origin = origin.push(i as int);
                }
            }
            proof {
                assert(rest@ =~= old_self.edges@.skip(i as int + 1));
            }
            i = i + 1;
        }
        proof {
            assert(all.take(i as int) =~= all);
            let kept = self.edges@;
            assert(self.edge_seq() == all.filter(p));
            assert forall|k: int| 0 <= k < kept.len() implies {
                let e = #[trigger] kept[k];
                &&& e.src < self.nodes@.len()
                &&& e.dst < self.nodes@.len()
                &&& self.data@[e.src as int] is Task
                &&& dag_edges(self.graph).contains((self.nodes@[e.src as int], self.nodes@[e.dst as int]))
                &&& (e.dependency is Read || e.dependency is Write) ==> self.data@[e.dst as int] is Resource
                &&& (e.dependency is Require || e.dependency is ReservedRequire) ==> self.data@[e.dst as int] is Task
            } by {
                let j = origin[k];
                assert(kept[k] == old_self.edges@[j]);
                if self.nodes@[kept[k].src as int] == ns {
                    old_self.lemma_nodes_distinct(kept[k].src as int, src as int);
                }
            }
            assert forall|k1: int, k2: int|
                0 <= k1 < kept.len() && 0 <= k2 < kept.len() && k1 != k2 implies !(#[trigger] kept[k1].src
                == #[trigger] kept[k2].src && kept[k1].dst == kept[k2].dst) by {
                if k1 < k2 {
                    assert(origin[k1] < origin[k2]);
                } else {
                    assert(origin[k2] < origin[k1]);
                }
                assert(kept[k1] == old_self.edges@[origin[k1]]);
                assert(kept[k2] == old_self.edges@[origin[k2]]);
            }
            assert forall|a: Node, b: Node| #[trigger] dag_edges(self.graph).contains((a, b)) implies exists|k: int|
                0 <= k < self.edges@.len() && self.nodes@[#[trigger] self.edges@[k].src as int] == a
                    && self.nodes@[self.edges@[k].dst as int] == b by {
                let j = choose|j: int|
                    0 <= j < old_self.edges@.len() && old_self.nodes@[#[trigger] old_self.edges@[j].src as int] == a
                        && old_self.nodes@[old_self.edges@[j].dst as int] == b;
                assert(p(all[j]));
                all.lemma_filter_contains(p, j);
                let k = choose|k: int| 0 <= k < all.filter(p).len() && all.filter(p)[k] == all[j];
                assert(self.edge_seq()[k] == edge_view(self.edges@[k]));
            }
            assert forall|i2: int| 0 <= i2 < old_self.len() implies (#[trigger] self.is_task_node(i2)
                == old_self.is_task_node(i2) && self.is_resource_node(i2) == old_self.is_resource_node(i2)
                && self.node_key(i2) == old_self.node_key(i2) && self.task_of(i2) == old_self.task_of(i2)) by {
            }
        }
    }
}

impl<T> Store<T> {
    /// Resets task `src`, removing its output and all its outgoing dependencies.
    pub fn reset_task(&mut self, src: &TaskNode)
        requires
            old(self).wf(),
            old(self).is_task_node(src.0 as int),
        ensures
            final(self).wf(),
            final(self).extends(old(self)),
            final(self).len() == old(self).len(),
            final(self).output_of(src.0 as int) is None,
            forall|i: int| 0 <= i < old(self).len() && i != src.0 ==> #[trigger] final(self).output_of(i)
                == old(self).output_of(i),
            final(self).edge_seq() == edges_not_from(old(self).edge_seq(), src.0 as int),
    {
        let ghost old_data = self.data@;
        let i = src.0;
        let mut taken = NodeData::Resource { resource: KeyObj::new(ValueObj::Unit) };
        std::mem::swap(&mut taken, &mut self.data[i]);
        let updated = match taken {
            NodeData::Task { task, key, .. } => NodeData::Task { task, key, output: None },
            NodeData::Resource { resource } => NodeData::Resource { resource },
        };
        self.data.set(i, updated);
        proof {
            assert(self.data@ == old_data.update(i as int, updated));
            self.lemma_data_update_keeps_wf(*old(self), i as int);
        }
        let ghost mid = *self;
        self.remove_edges_from(i);
        proof {
            assert forall|j: int| 0 <= j < old(self).len() && j != src.0 implies #[trigger] self.output_of(j)
                == old(self).output_of(j) by {
                assert(self.data@[j] == mid.data@[j]);
                assert(mid.data@[j] == old_data[j]);
            }
        }
    }

    /// Replaces the dependency from task `src` to node `dst` by `dependency`, returning `true` if there was such a
    /// dependency, and `false` (changing nothing) otherwise.
    pub fn set_dependency(&mut self, src: &TaskNode, dst: usize, dependency: Dependency) -> (r: bool)
        requires
            old(self).wf(),
            (dst as int) < old(self).len(),
            kind_fits(*old(self), dst as int, dependency@),
        ensures
            final(self).wf(),
            final(self).extends(old(self)),
            final(self).len() == old(self).len(),
            forall|i: int| 0 <= i < old(self).len() ==> #[trigger] final(self).output_of(i) == old(self).output_of(i),
            forall|a: int, b: int| #[trigger] final(self).reaches(a, b) == old(self).reaches(a, b),
            r == old(self).has_edge(src.0 as int, dst as int),
            final(self).edge_seq().len() == old(self).edge_seq().len(),
            forall|k: int|
                0 <= k < old(self).edge_seq().len() ==> {
                    let e = #[trigger] final(self).edge_seq()[k];
                    let o = old(self).edge_seq()[k];
                    &&& e.src == o.src
                    &&& e.dst == o.dst
                    &&& e.dependency == (if o.src == src.0 && o.dst == dst { dependency@ } else { o.dependency })
                },
    {
        let ghost old_self = *self;
        proof {
            old_self.lemma_edge_views();
        }
        let mut k: usize = 0;
        while k < self.edges.len()
            invariant
                *self == old_self,
                old_self == *old(self),
                old_self.wf(),
                (dst as int) < old_self.len(),
                kind_fits(old_self, dst as int, dependency@),
                k <= self.edges@.len(),
                forall|j: int| 0 <= j < k ==> !(#[trigger] self.edges@[j].src == src.0 && self.edges@[j].dst == dst),
            decreases self.edges@.len() - k,
        {
            if self.edges[k].src == src.0 && self.edges[k].dst == dst {
                let ghost old_edges = self.edges@;
                let updated = Edge { src: src.0, dst, dependency };
                self.edges.set(k, updated);
                proof {
                    assert(self.edges@ == old_edges.update(k as int, updated));
                    assert(old_self.has_edge(src.0 as int, dst as int)) by {
                        assert(old_self.edge_seq()[k as int].src == src.0 as int);
                    }
                    assert forall|k1: int, k2: int|
                        0 <= k1 < self.edges@.len() && 0 <= k2 < self.edges@.len() && k1 != k2 implies !(
                        #[trigger] self.edges@[k1].src == #[trigger] self.edges@[k2].src && self.edges@[k1].dst
                            == self.edges@[k2].dst) by {
                        assert(old_edges[k1].src == self.edges@[k1].src && old_edges[k1].dst == self.edges@[k1].dst);
                        assert(old_edges[k2].src == self.edges@[k2].src && old_edges[k2].dst == self.edges@[k2].dst);
                    }
                    assert forall|a: Node, b: Node| #[trigger]
                        dag_edges(self.graph).contains((a, b)) implies exists|j: int|
                        0 <= j < self.edges@.len() && self.nodes@[#[trigger] self.edges@[j].src as int] == a
                            && self.nodes@[self.edges@[j].dst as int] == b by {
                        let j = choose|j: int|
                            0 <= j < old_edges.len() && old_self.nodes@[#[trigger] old_edges[j].src as int] == a
                                && old_self.nodes@[old_edges[j].dst as int] == b;
                        assert(self.edges@[j].src == old_edges[j].src);
                    }
                    assert forall|j: int| 0 <= j < old_self.edge_seq().len() implies {
                        let e = #[trigger] self.edge_seq()[j];
                        let o = old_self.edge_seq()[j];
                        &&& e.src == o.src
                        &&& e.dst == o.dst
                        &&& e.dependency == (if o.src == src.0 && o.dst == dst { dependency@ } else { o.dependency })
                    } by {
                        assert(self.edge_seq()[j] == edge_view(self.edges@[j]));
                        if j != k {
                            assert(!(old_edges[j].src == src.0 && old_edges[j].dst == dst));
                        }
                    }
                    assert forall|i: int| 0 <= i < old_self.len() implies (#[trigger] self.is_task_node(i)
                        == old_self.is_task_node(i) && self.is_resource_node(i) == old_self.is_resource_node(i)
                        && self.node_key(i) == old_self.node_key(i) && self.task_of(i) == old_self.task_of(i)) by {
                    }
                    assert(self.wf());
                    assert(self.extends(&old_self));
                }
                return true;
            }
            k = k + 1;
        }
        proof {
            if old_self.has_edge(src.0 as int, dst as int) {
                let j = choose|j: int|
                    0 <= j < old_self.edge_seq().len() && #[trigger] old_self.edge_seq()[j].src == src.0 as int
                        && old_self.edge_seq()[j].dst == dst as int;
                assert(self.edges@[j].src == src.0);
            }
        }
        false
    }
}

} // verus!
