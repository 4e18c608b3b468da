//! The operations on a task graph that analyses rely on, as a trait.

use crate::critical_path::{contains_path, path_views};
use crate::dummy_nodes::{dummy_node, edges_without_node};
use crate::graph_extension::{CustomError, Dag, NodeData, SINK_NODE_ID, SOURCE_NODE_ID};
use crate::timing::Path;
use vstd::prelude::*;

verus! {

/// What a graph of sub-jobs offers beyond its nodes and edges.
pub trait GraphExtension: Sized {
    /// The graph that this value stands for.
    spec fn graph(&self) -> Dag;

    /// Attaches the virtual source. Fails, changing nothing, exactly when
    /// one is attached already.
    fn add_dummy_source_node(&mut self) -> (added: Result<usize, CustomError>)
        requires
            old(self).graph().wf(),
            old(self).graph().nodes@.len() < usize::MAX,
        ensures
            final(self).graph().wf(),
            added is Ok <==> !old(self).graph().has_id(SOURCE_NODE_ID),
            match added {
                Ok(d) => {
                    &&& d == old(self).graph().nodes@.len()
                    &&& final(self).graph().nodes@ == old(self).graph().nodes@.push(
                        dummy_node(SOURCE_NODE_ID),
                    )
                    &&& final(self).graph().edges@ == old(self).graph().edges@ + old(
                        self,
                    ).graph().source_links(d, d as int)
                },
                Err(e) => old(self).graph().names_dummy_source(e) && final(self).graph().nodes@
                    == old(self).graph().nodes@ && final(self).graph().edges@ == old(
                    self,
                ).graph().edges@,
            },
    ;

    /// Attaches the virtual sink. Fails, changing nothing, exactly when one
    /// is attached already.
    fn add_dummy_sink_node(&mut self) -> (added: Result<usize, CustomError>)
        requires
            old(self).graph().wf(),
            old(self).graph().nodes@.len() < usize::MAX,
        ensures
            final(self).graph().wf(),
            added is Ok <==> !old(self).graph().has_id(SINK_NODE_ID),
            match added {
                Ok(d) => {
                    &&& d == old(self).graph().nodes@.len()
                    &&& final(self).graph().nodes@ == old(self).graph().nodes@.push(
                        dummy_node(SINK_NODE_ID),
                    )
                    &&& final(self).graph().edges@ == old(self).graph().edges@ + old(
                        self,
                    ).graph().sink_links(d, d as int)
                },
                Err(e) => old(self).graph().names_dummy_sink(e) && final(self).graph().nodes@ == old(
                    self,
                ).graph().nodes@ && final(self).graph().edges@ == old(self).graph().edges@,
            },
    ;

    /// Detaches the virtual source with its edges. Fails, changing nothing,
    /// exactly when none is attached.
    fn remove_dummy_source_node(&mut self) -> (removed: Result<usize, CustomError>)
        requires
            old(self).graph().wf(),
        ensures
            final(self).graph().wf(),
            removed is Ok <==> old(self).graph().has_id(SOURCE_NODE_ID),
            match removed {
                Ok(d) => {
                    &&& d < old(self).graph().nodes@.len()
                    &&& old(self).graph().nodes@[d as int].id == SOURCE_NODE_ID
                    &&& final(self).graph().nodes@ == old(self).graph().nodes@.remove(d as int)
                    &&& final(self).graph().edges@ == edges_without_node(
                        old(self).graph().edges@,
                        d as int,
                    )
                },
                Err(e) => e == CustomError::DummySourceMissing && final(self).graph().nodes@
                    == old(self).graph().nodes@ && final(self).graph().edges@ == old(
                    self,
                ).graph().edges@,
            },
    ;

    /// Detaches the virtual sink with its edges. Fails, changing nothing,
    /// exactly when none is attached.
    fn remove_dummy_sink_node(&mut self) -> (removed: Result<usize, CustomError>)
        requires
            old(self).graph().wf(),
        ensures
            final(self).graph().wf(),
            removed is Ok <==> old(self).graph().has_id(SINK_NODE_ID),
            match removed {
                Ok(d) => {
                    &&& d < old(self).graph().nodes@.len()
                    &&& old(self).graph().nodes@[d as int].id == SINK_NODE_ID
                    &&& final(self).graph().nodes@ == old(self).graph().nodes@.remove(d as int)
                    &&& final(self).graph().edges@ == edges_without_node(
                        old(self).graph().edges@,
                        d as int,
                    )
                },
                Err(e) => e == CustomError::DummySinkMissing && final(self).graph().nodes@ == old(
                    self,
                ).graph().nodes@ && final(self).graph().edges@ == old(self).graph().edges@,
            },
    ;

    /// All critical paths, in the order in which a breadth-first search
    /// finds them.
    fn get_critical_paths(&self) -> (found: Result<Vec<Vec<usize>>, CustomError>)
        requires
            self.graph().wf(),
        ensures
            match found {
                Ok(paths) => {
                    &&& path_views(paths@) == self.graph().critical_paths()
                    &&& forall|i: int|
                        0 <= i < paths@.len() ==> self.graph().is_critical_walk(
                            (#[trigger] paths@[i])@,
                        )
                    &&& forall|walk: Seq<usize>| #[trigger]
                        self.graph().is_critical_walk(walk) ==> contains_path(paths@, walk)
                },
                Err(e) => e == CustomError::Cyclic || e == CustomError::Overflow,
            },
            found == Err::<Vec<Vec<usize>>, CustomError>(CustomError::Cyclic)
                <==> !self.graph().is_acyclic(),
            found == Err::<Vec<Vec<usize>>, CustomError>(CustomError::Overflow)
                <==> self.graph().is_acyclic() && exists|p: Path|
                self.graph().is_path(p) && #[trigger] self.graph().path_weight(p) > i32::MAX,
    ;

    /// Appends `node_data` unless its identity is taken or its execution
    /// time is missing or negative; returns the index of the new node.
    fn add_node_with_check(&mut self, node_data: NodeData) -> (added: Result<usize, CustomError>)
        requires
            old(self).graph().wf(),
        ensures
            final(self).graph().wf(),
            final(self).graph().edges@ == old(self).graph().edges@,
            match added {
                Ok(i) => i == old(self).graph().nodes@.len() && final(self).graph().nodes@ == old(
                    self,
                ).graph().nodes@.push(node_data),
                Err(_) => final(self).graph().nodes@ == old(self).graph().nodes@,
            },
            added == Err::<usize, CustomError>(CustomError::DuplicateId(node_data.id)) <==> old(
                self,
            ).graph().has_id(node_data.id),
            added == Err::<usize, CustomError>(CustomError::InvalidExecutionTime) <==> !old(
                self,
            ).graph().has_id(node_data.id) && !node_data.has_valid_execution_time(),
            added is Ok <==> !old(self).graph().has_id(node_data.id)
                && node_data.has_valid_execution_time(),
    ;
}

impl GraphExtension for Dag {
    open spec fn graph(&self) -> Dag {
        *self
    }

    fn add_dummy_source_node(&mut self) -> (added: Result<usize, CustomError>) {
        Dag::add_dummy_source_node(self)
    }

    fn add_dummy_sink_node(&mut self) -> (added: Result<usize, CustomError>) {
        Dag::add_dummy_sink_node(self)
    }

    fn remove_dummy_source_node(&mut self) -> (removed: Result<usize, CustomError>) {
        Dag::remove_dummy_source_node(self)
    }

    fn remove_dummy_sink_node(&mut self) -> (removed: Result<usize, CustomError>) {
        Dag::remove_dummy_sink_node(self)
    }

    fn get_critical_paths(&self) -> (found: Result<Vec<Vec<usize>>, CustomError>) {
        Dag::get_critical_paths(self)
    }

    fn add_node_with_check(&mut self, node_data: NodeData) -> (added: Result<usize, CustomError>) {
        Dag::add_node_with_check(self, node_data)
    }
}

} // verus!
