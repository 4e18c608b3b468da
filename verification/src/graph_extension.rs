//! Directed graphs of sub-jobs: nodes with numeric parameters, edges weighted
//! by communication time, addressed by stable integer indices.

use vstd::prelude::*;

verus! {

/// Identity carried by the virtual source node.
pub const SOURCE_NODE_ID: i32 = -1;

/// Identity carried by the virtual sink node.
pub const SINK_NODE_ID: i32 = -2;

/// Why an operation on a graph was rejected.
#[derive(Debug, Clone, Copy, PartialEq, Eq, Structural)]
pub enum CustomError {
    /// A node with this identity is already present.
    DuplicateId(i32),
    /// A node lacks `execution_time`, or carries a negative one.
    InvalidExecutionTime,
    /// An edge names a node that is not in the graph.
    NodeOutOfBounds,
    /// An edge carries a negative communication time.
    NegativeCommunicationTime,
    /// The virtual source node is already attached, at this place.
    DummySourceExists(usize),
    /// The virtual sink node is already attached, at this place.
    DummySinkExists(usize),
    /// No virtual source node is attached.
    DummySourceMissing,
    /// No virtual sink node is attached.
    DummySinkMissing,
    /// The edges form a cycle.
    Cyclic,
    /// A time along some path exceeds what an `i32` holds.
    Overflow,
    /// Neither `period` nor `end_to_end_deadline` is present where one is needed.
    MissingDeadline,
    /// A period or deadline that must be positive is not.
    NonPositivePeriod,
    /// The task of this number needs more cores than are there for it.
    InsufficientCores(usize),
    /// A node that is to run carries this negative identity, as virtual
    /// nodes do.
    NegativeId(i32),
    /// A task has no node that no edge enters, or none that no edge leaves.
    NoEndpoint,
    /// A run reached its horizon with work left to do.
    HorizonExceeded,
}

/// The parameters that a node can carry.
#[derive(Debug, Clone, Copy, PartialEq, Eq, Structural)]
pub enum ParamKey {
    ExecutionTime,
    Priority,
    Period,
    EndToEndDeadline,
    Offset,
    DagId,
    IsPreempted,
}

/// A sub-job: its identity within the graph and the parameters it carries.
#[derive(Debug, Clone, Copy, PartialEq, Eq, Structural)]
pub struct NodeData {
    pub id: i32,
    pub execution_time: Option<i32>,
    pub priority: Option<i32>,
    pub period: Option<i32>,
    pub end_to_end_deadline: Option<i32>,
    pub offset: Option<i32>,
    pub dag_id: Option<i32>,
    pub is_preempted: Option<i32>,
}

impl NodeData {
    /// The value stored under `key`, if any.
    pub open spec fn param(self, key: ParamKey) -> Option<i32> {
        match key {
            ParamKey::ExecutionTime => self.execution_time,
            ParamKey::Priority => self.priority,
            ParamKey::Period => self.period,
            ParamKey::EndToEndDeadline => self.end_to_end_deadline,
            ParamKey::Offset => self.offset,
            ParamKey::DagId => self.dag_id,
            ParamKey::IsPreempted => self.is_preempted,
        }
    }

    /// This node with `key` bound to `value` and every other parameter unchanged.
    pub open spec fn with_param(self, key: ParamKey, value: Option<i32>) -> NodeData {
        match key {
            ParamKey::ExecutionTime => NodeData { execution_time: value, ..self },
            ParamKey::Priority => NodeData { priority: value, ..self },
            ParamKey::Period => NodeData { period: value, ..self },
            ParamKey::EndToEndDeadline => NodeData { end_to_end_deadline: value, ..self },
            ParamKey::Offset => NodeData { offset: value, ..self },
            ParamKey::DagId => NodeData { dag_id: value, ..self },
            ParamKey::IsPreempted => NodeData { is_preempted: value, ..self },
        }
    }

    /// A node that carries no parameter at all.
    pub open spec fn bare(id: i32) -> NodeData {
        NodeData {
            id,
            execution_time: None,
            priority: None,
            period: None,
            end_to_end_deadline: None,
            offset: None,
            dag_id: None,
            is_preempted: None,
        }
    }

    /// The execution time as a mathematical integer, 0 where it is absent.
    pub open spec fn wcet(self) -> int {
        match self.execution_time {
            Some(t) => t as int,
            None => 0,
        }
    }

    /// Whether the node can take part in timing analysis and scheduling.
    pub open spec fn has_valid_execution_time(self) -> bool {
        self.execution_time is Some && self.execution_time->0 >= 0
    }

    /// A node with identity `id` and the single parameter `key`.
    pub fn new(id: i32, key: ParamKey, value: i32) -> (node: NodeData)
        ensures
            node == NodeData::bare(id).with_param(key, Some(value)),
    {
        let bare = NodeData {
            id,
            execution_time: None,
            priority: None,
            period: None,
            end_to_end_deadline: None,
            offset: None,
            dag_id: None,
            is_preempted: None,
        };
        bare.set_param(key, value)
    }

    /// Reads the parameter `key`.
    pub fn get_param(&self, key: ParamKey) -> (value: Option<i32>)
        ensures
            value == self.param(key),
    {
        match key {
            ParamKey::ExecutionTime => self.execution_time,
            ParamKey::Priority => self.priority,
            ParamKey::Period => self.period,
            ParamKey::EndToEndDeadline => self.end_to_end_deadline,
            ParamKey::Offset => self.offset,
            ParamKey::DagId => self.dag_id,
            ParamKey::IsPreempted => self.is_preempted,
        }
    }

    /// This node with `key` bound to `value`.
    pub fn set_param(self, key: ParamKey, value: i32) -> (node: NodeData)
        ensures
            node == self.with_param(key, Some(value)),
    {
        let mut node = self;
        match key {
            ParamKey::ExecutionTime => {
                node.execution_time = Some(value);
            },
            ParamKey::Priority => {
                node.priority = Some(value);
            },
            ParamKey::Period => {
                node.period = Some(value);
            },
            ParamKey::EndToEndDeadline => {
                node.end_to_end_deadline = Some(value);
            },
            ParamKey::Offset => {
                node.offset = Some(value);
            },
            ParamKey::DagId => {
                node.dag_id = Some(value);
            },
            ParamKey::IsPreempted => {
                node.is_preempted = Some(value);
            },
        }
        node
    }
}

/// A precedence constraint: `target` may start once `source` has finished
/// and `communication_time` has passed.
#[derive(Debug, Clone, Copy, PartialEq, Eq, Structural)]
pub struct Edge {
    pub source: usize,
    pub target: usize,
    pub communication_time: i32,
}

/// A graph of sub-jobs. Nodes and edges are addressed by their position in
/// `nodes` and `edges`.
#[derive(Debug, Clone)]
pub struct Dag {
    pub nodes: Vec<NodeData>,
    pub edges: Vec<Edge>,
}

/// Whether every edge of `edges` joins two of the nodes `0..node_count`.
pub open spec fn edges_in_bounds(node_count: int, edges: Seq<Edge>) -> bool {
    forall|e: int|
        0 <= e < edges.len() ==> (#[trigger] edges[e]).source < node_count && edges[e].target
            < node_count
}

/// Whether `order` lists each of the nodes `0..node_count` exactly once and
/// places the source of every edge before its target.
pub open spec fn is_topological_order(order: Seq<usize>, node_count: int, edges: Seq<Edge>) -> bool {
    &&& order.len() == node_count
    &&& forall|k: int| 0 <= k < order.len() ==> (#[trigger] order[k]) < node_count
    &&& forall|j: int, k: int| 0 <= j < k < order.len() ==> order[j] != order[k]
    &&& forall|v: usize| v < node_count ==> #[trigger] order.contains(v)
    &&& forall|e: int, j: int, k: int|
        #![trigger edges[e], order[j], order[k]]
        0 <= e < edges.len() && 0 <= j < order.len() && 0 <= k < order.len() && order[j]
            == edges[e].source && order[k] == edges[e].target ==> j < k
}

impl Dag {
    /// Structural validity: identities are unique, every node has a
    /// non-negative execution time, and every edge joins two nodes of the
    /// graph with a non-negative communication time.
    pub open spec fn wf(&self) -> bool {
        &&& forall|i: int, j: int|
            0 <= i < j < self.nodes@.len() ==> self.nodes@[i].id != self.nodes@[j].id
        &&& forall|i: int|
            0 <= i < self.nodes@.len() ==> (#[trigger] self.nodes@[i]).has_valid_execution_time()
        &&& edges_in_bounds(self.nodes@.len() as int, self.edges@)
        &&& forall|e: int|
            0 <= e < self.edges@.len() ==> (#[trigger] self.edges@[e]).communication_time >= 0
    }

    /// Whether the edges admit a topological order, that is, form no cycle.
    pub open spec fn is_acyclic(&self) -> bool {
        exists|order: Seq<usize>|
            is_topological_order(order, self.nodes@.len() as int, self.edges@)
    }

    /// Whether some node carries the identity `id`.
    pub open spec fn has_id(&self, id: i32) -> bool {
        exists|i: int| 0 <= i < self.nodes@.len() && (#[trigger] self.nodes@[i]).id == id
    }

    /// Execution time of node `v`.
    pub open spec fn wcet(&self, v: int) -> int {
        self.nodes@[v].wcet()
    }

    /// The empty graph.
    pub fn new() -> (dag: Dag)
        ensures
            dag.nodes@.len() == 0,
            dag.edges@.len() == 0,
            dag.wf(),
    {
        Dag { nodes: Vec::new(), edges: Vec::new() }
    }

    pub fn node_count(&self) -> (n: usize)
        ensures
            n == self.nodes@.len(),
    {
        self.nodes.len()
    }

    pub fn edge_count(&self) -> (n: usize)
        ensures
            n == self.edges@.len(),
    {
        self.edges.len()
    }

    /// Whether the graph is structurally valid.
    pub fn is_wf(&self) -> (ok: bool)
        ensures
            ok == self.wf(),
    {
        let n = self.nodes.len();
        let mut j: usize = 0;
        while j < n
            invariant
                n == self.nodes@.len(),
                j <= n,
                forall|a: int, b: int| 0 <= a < b < j ==> self.nodes@[a].id != self.nodes@[b].id,
                forall|a: int| 0 <= a < j ==> (#[trigger] self.nodes@[a]).has_valid_execution_time(),
            decreases n - j,
        {
            let valid = match self.nodes[j].execution_time {
                Some(t) => t >= 0,
                None => false,
            };
            if !valid {
                assert(!self.nodes@[j as int].has_valid_execution_time());
                return false;
            }
            let mut i: usize = 0;
            while i < j
                invariant
                    n == self.nodes@.len(),
                    j < n,
                    i <= j,
                    forall|a: int| 0 <= a < i ==> self.nodes@[a].id != self.nodes@[j as int].id,
                decreases j - i,
            {
                if self.nodes[i].id == self.nodes[j].id {
                    assert(self.nodes@[i as int].id == self.nodes@[j as int].id);
                    return false;
                }
                i += 1;
            }
            j += 1;
        }
        let m = self.edges.len();
        let mut e: usize = 0;
        while e < m
            invariant
                n == self.nodes@.len(),
                m == self.edges@.len(),
                e <= m,
                forall|a: int|
                    0 <= a < e ==> (#[trigger] self.edges@[a]).source < n && self.edges@[a].target < n
                        && self.edges@[a].communication_time >= 0,
            decreases m - e,
        {
            let edge = self.edges[e];
            if edge.source >= n || edge.target >= n || edge.communication_time < 0 {
                assert(!(self.edges@[e as int].source < n && self.edges@[e as int].target < n
                    && self.edges@[e as int].communication_time >= 0));
                return false;
            }
            e += 1;
        }
        true
    }

    /// Position of the node with identity `id`.
    pub fn find_node_by_id(&self, id: i32) -> (found: Option<usize>)
        ensures
            match found {
                Some(i) => i < self.nodes@.len() && self.nodes@[i as int].id == id && forall|j: int|
                    0 <= j < i ==> self.nodes@[j].id != id,
                None => !self.has_id(id),
            },
    {
        let mut i: usize = 0;
        while i < self.nodes.len()
            invariant
                i <= self.nodes@.len(),
                forall|j: int| 0 <= j < i ==> self.nodes@[j].id != id,
            decreases self.nodes@.len() - i,
        {
            if self.nodes[i].id == id {
                return Some(i);
            }
            i += 1;
        }
        None
    }

    /// Appends `node_data` unless its identity is taken or its execution time
    /// is missing or negative; returns the index of the new node. Where the
    /// identity is taken, the error names it.
    pub fn add_node_with_check(&mut self, node_data: NodeData) -> (added: Result<usize, CustomError>)
        requires
            old(self).wf(),
        ensures
            final(self).wf(),
            final(self).edges@ == old(self).edges@,
            match added {
                Ok(i) => i == old(self).nodes@.len() && final(self).nodes@ == old(self).nodes@.push(
                    node_data,
                ),
                Err(_) => final(self).nodes@ == old(self).nodes@,
            },
            added == Err::<usize, CustomError>(CustomError::DuplicateId(node_data.id)) <==> old(
                self,
            ).has_id(node_data.id),
            added == Err::<usize, CustomError>(CustomError::InvalidExecutionTime) <==> !old(
                self,
            ).has_id(node_data.id) && !node_data.has_valid_execution_time(),
            added is Ok <==> !old(self).has_id(node_data.id)
                && node_data.has_valid_execution_time(),
    {
        if self.find_node_by_id(node_data.id).is_some() {
            return Err(CustomError::DuplicateId(node_data.id));
        }
        let valid = match node_data.execution_time {
            Some(t) => t >= 0,
            None => false,
        };
        if !valid {
            return Err(CustomError::InvalidExecutionTime);
        }
        let index = self.nodes.len();
        self.nodes.push(node_data);
        assert(forall|i: int| 0 <= i < index ==> self.nodes@[i] == old(self).nodes@[i]);
        Ok(index)
    }

    /// Appends an edge from `source` to `target`; returns its index.
    pub fn add_edge(&mut self, source: usize, target: usize, communication_time: i32) -> (added:
        Result<usize, CustomError>)
        requires
            old(self).wf(),
        ensures
            final(self).wf(),
            final(self).nodes@ == old(self).nodes@,
            match added {
                Ok(e) => e == old(self).edges@.len() && final(self).edges@ == old(self).edges@.push(
                    Edge { source, target, communication_time },
                ),
                Err(_) => final(self).edges@ == old(self).edges@,
            },
            added == Err::<usize, CustomError>(CustomError::NodeOutOfBounds) <==> (source >= old(
                self,
            ).nodes@.len() || target >= old(self).nodes@.len()),
            added == Err::<usize, CustomError>(CustomError::NegativeCommunicationTime) <==> (source
                < old(self).nodes@.len() && target < old(self).nodes@.len() && communication_time
                < 0),
            added is Ok <==> (source < old(self).nodes@.len() && target < old(self).nodes@.len()
                && communication_time >= 0),
    {
        if source >= self.nodes.len() || target >= self.nodes.len() {
            return Err(CustomError::NodeOutOfBounds);
        }
        if communication_time < 0 {
            return Err(CustomError::NegativeCommunicationTime);
        }
        let index = self.edges.len();
        self.edges.push(Edge { source, target, communication_time });
        assert(forall|e: int| 0 <= e < index ==> self.edges@[e] == old(self).edges@[e]);
        Ok(index)
    }
}

} // verus!
