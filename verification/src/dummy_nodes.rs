//! Virtual source and sink nodes: attaching one to every node without
//! predecessors or successors, and detaching it again.

use crate::graph_extension::{
    CustomError, Dag, Edge, NodeData, ParamKey, SINK_NODE_ID, SOURCE_NODE_ID,
};
use vstd::prelude::*;

verus! {

/// The virtual node with identity `id`: execution time 0, nothing else.
pub open spec fn dummy_node(id: i32) -> NodeData {
    NodeData::bare(id).with_param(ParamKey::ExecutionTime, Some(0i32))
}

/// Where index `i` stands once the node at `removed` is gone.
pub open spec fn shifted(i: usize, removed: int) -> usize {
    if i > removed {
        (i - 1) as usize
    } else {
        i
    }
}

/// The edges of `edges` that do not touch the node at `removed`, in their
/// order, with their ends re-addressed to the graph without that node.
pub open spec fn edges_without_node(edges: Seq<Edge>, removed: int) -> Seq<Edge>
    decreases edges.len(),
{
    if edges.len() == 0 {
        Seq::empty()
    } else {
        let rest = edges_without_node(edges.drop_last(), removed);
        let e = edges.last();
        if e.source == removed || e.target == removed {
            rest
        } else {
            rest.push(
                Edge {
                    source: shifted(e.source, removed),
                    target: shifted(e.target, removed),
                    communication_time: e.communication_time,
                },
            )
        }
    }
}

impl Dag {
    /// Whether `e` says that the virtual source is attached, and where.
    pub open spec fn names_dummy_source(&self, e: CustomError) -> bool {
        e matches CustomError::DummySourceExists(place) && place < self.nodes@.len()
            && self.nodes@[place as int].id == SOURCE_NODE_ID
    }

    /// Whether `e` says that the virtual sink is attached, and where.
    pub open spec fn names_dummy_sink(&self, e: CustomError) -> bool {
        e matches CustomError::DummySinkExists(place) && place < self.nodes@.len()
            && self.nodes@[place as int].id == SINK_NODE_ID
    }

    /// One edge of communication time 0 from the node at `from` to each of
    /// the first `upto` nodes that no edge enters, in ascending order.
    pub open spec fn source_links(&self, from: usize, upto: int) -> Seq<Edge>
        decreases upto,
    {
        if upto <= 0 {
            Seq::empty()
        } else {
            let rest = self.source_links(from, upto - 1);
            if self.is_source_node(upto - 1) {
                rest.push(Edge { source: from, target: (upto - 1) as usize, communication_time: 0 })
            } else {
                rest
            }
        }
    }

    /// One edge of communication time 0 to the node at `to` from each of the
    /// first `upto` nodes that no edge leaves, in ascending order.
    pub open spec fn sink_links(&self, to: usize, upto: int) -> Seq<Edge>
        decreases upto,
    {
        if upto <= 0 {
            Seq::empty()
        } else {
            let rest = self.sink_links(to, upto - 1);
            if self.is_sink_node(upto - 1) {
                rest.push(Edge { source: (upto - 1) as usize, target: to, communication_time: 0 })
            } else {
                rest
            }
        }
    }

    /// For every node, whether some edge enters it.
    pub fn incoming_flags(&self) -> (flags: Vec<bool>)
        requires
            self.wf(),
        ensures
            flags@.len() == self.nodes@.len(),
            forall|v: int| 0 <= v < flags@.len() ==> #[trigger] flags@[v] == !self.is_source_node(v),
    {
        let n = self.nodes.len();
        let m = self.edges.len();
        let mut flags: Vec<bool> = Vec::new();
        let mut i: usize = 0;
        while i < n
            invariant
                i <= n,
                flags@.len() == i,
                forall|v: int| 0 <= v < i ==> !#[trigger] flags@[v],
            decreases n - i,
        {
            flags.push(false);
            i += 1;
        }
        let mut e: usize = 0;
        while e < m
            invariant
                self.wf(),
                n == self.nodes@.len(),
                m == self.edges@.len(),
                e <= m,
                flags@.len() == n,
                forall|v: int|
                    0 <= v < n ==> (#[trigger] flags@[v] <==> exists|i: int|
                        0 <= i < e && (#[trigger] self.edges@[i]).target == v),
            decreases m - e,
        {
            let target = self.edges[e].target;
            let ghost before = flags@;
            flags[target] = true;
            assert forall|v: int| 0 <= v < n implies (#[trigger] flags@[v] <==> exists|i: int|
                0 <= i < e + 1 && (#[trigger] self.edges@[i]).target == v) by {
                if v == target {
                    assert(self.edges@[e as int].target == v);
                } else {
                    assert(flags@[v] == before[v]);
                    if exists|i: int| 0 <= i < e + 1 && (#[trigger] self.edges@[i]).target == v {
                        let i = choose|i: int|
                            0 <= i < e + 1 && (#[trigger] self.edges@[i]).target == v;
                        assert(i < e);
                    }
                }
            }
            e += 1;
        }
        assert forall|v: int| 0 <= v < flags@.len() implies #[trigger] flags@[v]
            == !self.is_source_node(v) by {
            if flags@[v] {
                let i = choose|i: int| 0 <= i < m && (#[trigger] self.edges@[i]).target == v;
                assert(self.edges@[i].target == v);
            }
        }
        flags
    }

    /// For every node, whether some edge leaves it.
    pub fn outgoing_flags(&self) -> (flags: Vec<bool>)
        requires
            self.wf(),
        ensures
            flags@.len() == self.nodes@.len(),
            forall|v: int| 0 <= v < flags@.len() ==> #[trigger] flags@[v] == !self.is_sink_node(v),
    {
        let n = self.nodes.len();
        let m = self.edges.len();
        let mut flags: Vec<bool> = Vec::new();
        let mut i: usize = 0;
        while i < n
            invariant
                i <= n,
                flags@.len() == i,
                forall|v: int| 0 <= v < i ==> !#[trigger] flags@[v],
            decreases n - i,
        {
            flags.push(false);
            i += 1;
        }
        let mut e: usize = 0;
        while e < m
            invariant
                self.wf(),
                n == self.nodes@.len(),
                m == self.edges@.len(),
                e <= m,
                flags@.len() == n,
                forall|v: int|
                    0 <= v < n ==> (#[trigger] flags@[v] <==> exists|i: int|
                        0 <= i < e && (#[trigger] self.edges@[i]).source == v),
            decreases m - e,
        {
            let source = self.edges[e].source;
            let ghost before = flags@;
            flags[source] = true;
            assert forall|v: int| 0 <= v < n implies (#[trigger] flags@[v] <==> exists|i: int|
                0 <= i < e + 1 && (#[trigger] self.edges@[i]).source == v) by {
                if v == source {
                    assert(self.edges@[e as int].source == v);
                } else {
                    assert(flags@[v] == before[v]);
                    if exists|i: int| 0 <= i < e + 1 && (#[trigger] self.edges@[i]).source == v {
                        let i = choose|i: int|
                            0 <= i < e + 1 && (#[trigger] self.edges@[i]).source == v;
                        assert(i < e);
                    }
                }
            }
            e += 1;
        }
        assert forall|v: int| 0 <= v < flags@.len() implies #[trigger] flags@[v]
            == !self.is_sink_node(v) by {
            if flags@[v] {
                let i = choose|i: int| 0 <= i < m && (#[trigger] self.edges@[i]).source == v;
                assert(self.edges@[i].source == v);
            }
        }
        flags
    }

    /// Attaches the virtual source: a node of execution time 0 with an edge
    /// to every node that no edge enters. Fails, changing nothing, exactly
    /// when a virtual source is already attached; the error names its place.
    pub fn add_dummy_source_node(&mut self) -> (added: Result<usize, CustomError>)
        requires
            old(self).wf(),
            old(self).nodes@.len() < usize::MAX,
        ensures
            final(self).wf(),
            added is Ok <==> !old(self).has_id(SOURCE_NODE_ID),
            match added {
                Ok(d) => {
                    &&& d == old(self).nodes@.len()
                    &&& final(self).nodes@ == old(self).nodes@.push(dummy_node(SOURCE_NODE_ID))
                    &&& final(self).edges@ == old(self).edges@ + old(self).source_links(
                        d,
                        d as int,
                    )
                },
                Err(e) => old(self).names_dummy_source(e) && final(self).nodes@ == old(
                    self,
                ).nodes@ && final(self).edges@ == old(self).edges@,
            },
    {
        if let Some(place) = self.find_node_by_id(SOURCE_NODE_ID) {
            return Err(CustomError::DummySourceExists(place));
        }
        let flags = self.incoming_flags();
        let n = self.nodes.len();
        let node = NodeData::new(SOURCE_NODE_ID, ParamKey::ExecutionTime, 0);
        self.nodes.push(node);
        assert(forall|i: int| 0 <= i < n ==> self.nodes@[i] == old(self).nodes@[i]);
        let mut v: usize = 0;
        while v < n
            invariant
                old(self).wf(),
                n == old(self).nodes@.len(),
                v <= n,
                flags@.len() == n,
                forall|v: int|
                    0 <= v < flags@.len() ==> #[trigger] flags@[v] == !old(self).is_source_node(v),
                self.nodes@ == old(self).nodes@.push(dummy_node(SOURCE_NODE_ID)),
                self.edges@ == old(self).edges@ + old(self).source_links(n, v as int),
            decreases n - v,
        {
            if !flags[v] {
                self.edges.push(Edge { source: n, target: v, communication_time: 0 });
            }
            assert(self.edges@ =~= old(self).edges@ + old(self).source_links(n, v + 1));
            v += 1;
        }
        proof {
            old(self).lemma_source_links_in_bounds(n, n as int);
            assert forall|e: int| 0 <= e < self.edges@.len() implies (#[trigger] self.edges@[e]).source
                < self.nodes@.len() && self.edges@[e].target < self.nodes@.len()
                && self.edges@[e].communication_time >= 0 by {
                if e < old(self).edges@.len() {
                    assert(self.edges@[e] == old(self).edges@[e]);
                } else {
                    assert(self.edges@[e] == old(self).source_links(n, n as int)[e - old(
                        self,
                    ).edges@.len()]);
                }
            }
            assert forall|i: int, j: int| 0 <= i < j < self.nodes@.len() implies self.nodes@[i].id
                != self.nodes@[j].id by {
                if j == n {
                    assert(old(self).nodes@[i].id != SOURCE_NODE_ID);
                }
            }
        }
        Ok(n)
    }

    /// Attaches the virtual sink: a node of execution time 0 with an edge
    /// from every node that no edge leaves. Fails, changing nothing, exactly
    /// when a virtual sink is already attached; the error names its place.
    pub fn add_dummy_sink_node(&mut self) -> (added: Result<usize, CustomError>)
        requires
            old(self).wf(),
            old(self).nodes@.len() < usize::MAX,
        ensures
            final(self).wf(),
            added is Ok <==> !old(self).has_id(SINK_NODE_ID),
            match added {
                Ok(d) => {
                    &&& d == old(self).nodes@.len()
                    &&& final(self).nodes@ == old(self).nodes@.push(dummy_node(SINK_NODE_ID))
                    &&& final(self).edges@ == old(self).edges@ + old(self).sink_links(d, d as int)
                },
                Err(e) => old(self).names_dummy_sink(e) && final(self).nodes@ == old(
                    self,
                ).nodes@ && final(self).edges@ == old(self).edges@,
            },
    {
        if let Some(place) = self.find_node_by_id(SINK_NODE_ID) {
            return Err(CustomError::DummySinkExists(place));
        }
        let flags = self.outgoing_flags();
        let n = self.nodes.len();
        let node = NodeData::new(SINK_NODE_ID, ParamKey::ExecutionTime, 0);
        self.nodes.push(node);
        assert(forall|i: int| 0 <= i < n ==> self.nodes@[i] == old(self).nodes@[i]);
        let mut v: usize = 0;
        while v < n
            invariant
                old(self).wf(),
                n == old(self).nodes@.len(),
                v <= n,
                flags@.len() == n,
                forall|v: int|
                    0 <= v < flags@.len() ==> #[trigger] flags@[v] == !old(self).is_sink_node(v),
                self.nodes@ == old(self).nodes@.push(dummy_node(SINK_NODE_ID)),
                self.edges@ == old(self).edges@ + old(self).sink_links(n, v as int),
            decreases n - v,
        {
            if !flags[v] {
                self.edges.push(Edge { source: v, target: n, communication_time: 0 });
            }
            assert(self.edges@ =~= old(self).edges@ + old(self).sink_links(n, v + 1));
            v += 1;
        }
        proof {
            old(self).lemma_sink_links_in_bounds(n, n as int);
            assert forall|e: int| 0 <= e < self.edges@.len() implies (#[trigger] self.edges@[e]).source
                < self.nodes@.len() && self.edges@[e].target < self.nodes@.len()
                && self.edges@[e].communication_time >= 0 by {
                if e < old(self).edges@.len() {
                    assert(self.edges@[e] == old(self).edges@[e]);
                } else {
                    assert(self.edges@[e] == old(self).sink_links(n, n as int)[e - old(
                        self,
                    ).edges@.len()]);
                }
            }
            assert forall|i: int, j: int| 0 <= i < j < self.nodes@.len() implies self.nodes@[i].id
                != self.nodes@[j].id by {
                if j == n {
                    assert(old(self).nodes@[i].id != SINK_NODE_ID);
                }
            }
        }
        Ok(n)
    }

    /// Every link from the virtual source leaves `from`, enters one of the
    /// first `upto` nodes and takes no time.
    pub proof fn lemma_source_links_in_bounds(&self, from: usize, upto: int)
        requires
            0 <= upto <= usize::MAX,
        ensures
            forall|i: int|
                0 <= i < self.source_links(from, upto).len() ==> {
                    let e = #[trigger] self.source_links(from, upto)[i];
                    e.source == from && e.target < upto && e.communication_time == 0
                },
        decreases upto,
    {
        if upto > 0 {
            self.lemma_source_links_in_bounds(from, upto - 1);
            let rest = self.source_links(from, upto - 1);
            assert forall|i: int| 0 <= i < self.source_links(from, upto).len() implies {
                let e = #[trigger] self.source_links(from, upto)[i];
                e.source == from && e.target < upto && e.communication_time == 0
            } by {
                if i < rest.len() {
                    assert(self.source_links(from, upto)[i] == rest[i]);
                }
            }
        }
    }

    /// Every link to the virtual sink enters `to`, leaves one of the first
    /// `upto` nodes and takes no time.
    pub proof fn lemma_sink_links_in_bounds(&self, to: usize, upto: int)
        requires
            0 <= upto <= usize::MAX,
        ensures
            forall|i: int|
                0 <= i < self.sink_links(to, upto).len() ==> {
                    let e = #[trigger] self.sink_links(to, upto)[i];
                    e.target == to && e.source < upto && e.communication_time == 0
                },
        decreases upto,
    {
        if upto > 0 {
            self.lemma_sink_links_in_bounds(to, upto - 1);
            let rest = self.sink_links(to, upto - 1);
            assert forall|i: int| 0 <= i < self.sink_links(to, upto).len() implies {
                let e = #[trigger] self.sink_links(to, upto)[i];
                e.target == to && e.source < upto && e.communication_time == 0
            } by {
                if i < rest.len() {
                    assert(self.sink_links(to, upto)[i] == rest[i]);
                }
            }
        }
    }

    /// Removes the node at `removed` and every edge that touches it. The
    /// nodes behind it move up by one place; the other edges keep their
    /// order and follow their nodes.
    pub fn remove_node(&mut self, removed: usize)
        requires
            old(self).wf(),
            removed < old(self).nodes@.len(),
        ensures
            final(self).wf(),
            final(self).nodes@ == old(self).nodes@.remove(removed as int),
            final(self).edges@ == edges_without_node(old(self).edges@, removed as int),
    {
        let n = self.nodes.len();
        let m = self.edges.len();
        let mut kept: Vec<Edge> = Vec::new();
        let mut e: usize = 0;
        while e < m
            invariant
                self.wf(),
                self.edges@ == old(self).edges@,
                self.nodes@ == old(self).nodes@,
                n == self.nodes@.len(),
                m == self.edges@.len(),
                removed < n,
                e <= m,
                kept@ == edges_without_node(self.edges@.subrange(0, e as int), removed as int),
                forall|i: int|
                    0 <= i < kept@.len() ==> (#[trigger] kept@[i]).source < n - 1 && kept@[i].target
                        < n - 1 && kept@[i].communication_time >= 0,
            decreases m - e,
        {
            let edge = self.edges[e];
            assert(self.edges@.subrange(0, e + 1).drop_last() =~= self.edges@.subrange(0, e as int));
            assert(self.edges@.subrange(0, e + 1).last() == edge);
            if edge.source != removed && edge.target != removed {
                let source = if edge.source > removed {
                    edge.source - 1
                } else {
                    edge.source
                };
                let target = if edge.target > removed {
                    edge.target - 1
                } else {
                    edge.target
                };
                kept.push(Edge { source, target, communication_time: edge.communication_time });
            }
            e += 1;
        }
        assert(self.edges@.subrange(0, m as int) =~= self.edges@);
        self.edges = kept;
        self.nodes.remove(removed);
        assert forall|i: int, j: int| 0 <= i < j < self.nodes@.len() implies self.nodes@[i].id
            != self.nodes@[j].id by {
            let oi = if i < removed { i } else { i + 1 };
            let oj = if j < removed { j } else { j + 1 };
            assert(self.nodes@[i] == old(self).nodes@[oi]);
            assert(self.nodes@[j] == old(self).nodes@[oj]);
        }
        assert forall|i: int| 0 <= i < self.nodes@.len() implies (#[trigger] self.nodes@[i]).has_valid_execution_time() by {
            let oi = if i < removed { i } else { i + 1 };
            assert(self.nodes@[i] == old(self).nodes@[oi]);
        }
    }

    /// Detaches the virtual source with its edges. Fails, changing nothing,
    /// exactly when none is attached.
    pub fn remove_dummy_source_node(&mut self) -> (removed: Result<usize, CustomError>)
        requires
            old(self).wf(),
        ensures
            final(self).wf(),
            removed is Ok <==> old(self).has_id(SOURCE_NODE_ID),
            match removed {
                Ok(d) => {
                    &&& d < old(self).nodes@.len()
                    &&& old(self).nodes@[d as int].id == SOURCE_NODE_ID
                    &&& final(self).nodes@ == old(self).nodes@.remove(d as int)
                    &&& final(self).edges@ == edges_without_node(old(self).edges@, d as int)
                },
                Err(e) => e == CustomError::DummySourceMissing && final(self).nodes@ == old(
                    self,
                ).nodes@ && final(self).edges@ == old(self).edges@,
            },
    {
        match self.find_node_by_id(SOURCE_NODE_ID) {
            Some(d) => {
                self.remove_node(d);
                Ok(d)
            },
            None => Err(CustomError::DummySourceMissing),
        }
    }

    /// Detaches the virtual sink with its edges. Fails, changing nothing,
    /// exactly when none is attached.
    pub fn remove_dummy_sink_node(&mut self) -> (removed: Result<usize, CustomError>)
        requires
            old(self).wf(),
        ensures
            final(self).wf(),
            removed is Ok <==> old(self).has_id(SINK_NODE_ID),
            match removed {
                Ok(d) => {
                    &&& d < old(self).nodes@.len()
                    &&& old(self).nodes@[d as int].id == SINK_NODE_ID
                    &&& final(self).nodes@ == old(self).nodes@.remove(d as int)
                    &&& final(self).edges@ == edges_without_node(old(self).edges@, d as int)
                },
                Err(e) => e == CustomError::DummySinkMissing && final(self).nodes@ == old(
                    self,
                ).nodes@ && final(self).edges@ == old(self).edges@,
            },
    {
        match self.find_node_by_id(SINK_NODE_ID) {
            Some(d) => {
                self.remove_node(d);
                Ok(d)
            },
            None => Err(CustomError::DummySinkMissing),
        }
    }
}

/// Edges that all lie below the node at `removed` are what is left of
/// themselves once that node is gone.
pub proof fn lemma_edges_below_are_kept(edges: Seq<Edge>, removed: int)
    requires
        forall|i: int|
            0 <= i < edges.len() ==> (#[trigger] edges[i]).source < removed && edges[i].target
                < removed,
    ensures
        edges_without_node(edges, removed) == edges,
    decreases edges.len(),
{
    if edges.len() > 0 {
        lemma_edges_below_are_kept(edges.drop_last(), removed);
        assert(edges.drop_last().push(edges.last()) =~= edges);
    }
}

/// Edges that all touch the node at `removed` leave nothing behind once
/// that node is gone.
pub proof fn lemma_edges_touching_are_dropped(edges: Seq<Edge>, extra: Seq<Edge>, removed: int)
    requires
        forall|i: int|
            0 <= i < extra.len() ==> (#[trigger] extra[i]).source == removed || extra[i].target
                == removed,
    ensures
        edges_without_node(edges + extra, removed) == edges_without_node(edges, removed),
    decreases extra.len(),
{
    if extra.len() == 0 {
        assert(edges + extra =~= edges);
    } else {
        lemma_edges_touching_are_dropped(edges, extra.drop_last(), removed);
        assert((edges + extra).drop_last() =~= edges + extra.drop_last());
        assert((edges + extra).last() == extra.last());
    }
}

/// Attaching the virtual source and detaching it again leaves the graph as
/// it was: `after` is `before` with the virtual source attached.
pub proof fn lemma_detaching_source_restores(before: Dag, after: Dag)
    requires
        before.wf(),
        before.nodes@.len() < usize::MAX,
        after.nodes@ == before.nodes@.push(dummy_node(SOURCE_NODE_ID)),
        after.edges@ == before.edges@ + before.source_links(
            before.nodes@.len() as usize,
            before.nodes@.len() as int,
        ),
    ensures
        after.nodes@.remove(before.nodes@.len() as int) == before.nodes@,
        edges_without_node(after.edges@, before.nodes@.len() as int) == before.edges@,
{
    let n = before.nodes@.len() as int;
    assert(after.nodes@.remove(n) =~= before.nodes@);
    before.lemma_source_links_in_bounds(n as usize, n);
    lemma_edges_touching_are_dropped(before.edges@, before.source_links(n as usize, n), n);
    lemma_edges_below_are_kept(before.edges@, n);
}

/// Attaching the virtual sink and detaching it again leaves the graph as
/// it was: `after` is `before` with the virtual sink attached.
pub proof fn lemma_detaching_sink_restores(before: Dag, after: Dag)
    requires
        before.wf(),
        before.nodes@.len() < usize::MAX,
        after.nodes@ == before.nodes@.push(dummy_node(SINK_NODE_ID)),
        after.edges@ == before.edges@ + before.sink_links(
            before.nodes@.len() as usize,
            before.nodes@.len() as int,
        ),
    ensures
        after.nodes@.remove(before.nodes@.len() as int) == before.nodes@,
        edges_without_node(after.edges@, before.nodes@.len() as int) == before.edges@,
{
    let n = before.nodes@.len() as int;
    assert(after.nodes@.remove(n) =~= before.nodes@);
    before.lemma_sink_links_in_bounds(n as usize, n);
    lemma_edges_touching_are_dropped(before.edges@, before.sink_links(n as usize, n), n);
    lemma_edges_below_are_kept(before.edges@, n);
}

} // verus!
