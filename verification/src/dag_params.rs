//! What a graph says of itself as a task: its volume, its period and its
//! end-to-end deadline.

use crate::graph_extension::{CustomError, Dag, NodeData, ParamKey};
use vstd::prelude::*;

verus! {

impl Dag {
    /// Sum of the execution times of the first `upto` nodes.
    pub open spec fn volume_upto(&self, upto: int) -> int
        decreases upto,
    {
        if upto <= 0 {
            0
        } else {
            self.volume_upto(upto - 1) + self.wcet(upto - 1)
        }
    }

    /// Sum of the execution times of all nodes.
    pub open spec fn volume(&self) -> int {
        self.volume_upto(self.nodes@.len() as int)
    }

    /// The value of `key` at the first node from `v` on that no edge enters
    /// and that carries `key`.
    pub open spec fn head_param_from(&self, key: ParamKey, v: int) -> Option<i32>
        decreases self.nodes@.len() - v,
    {
        if v < 0 || v >= self.nodes@.len() {
            None
        } else if self.is_source_node(v) && self.nodes@[v].param(key) is Some {
            self.nodes@[v].param(key)
        } else {
            self.head_param_from(key, v + 1)
        }
    }

    /// The value of `key` at the first node from `v` on that no edge leaves
    /// and that carries `key`.
    pub open spec fn tail_param_from(&self, key: ParamKey, v: int) -> Option<i32>
        decreases self.nodes@.len() - v,
    {
        if v < 0 || v >= self.nodes@.len() {
            None
        } else if self.is_sink_node(v) && self.nodes@[v].param(key) is Some {
            self.nodes@[v].param(key)
        } else {
            self.tail_param_from(key, v + 1)
        }
    }

    /// The period of the task: that of the first node without predecessors
    /// that carries one. `None` where no such node carries a period, which
    /// is not the same as a period of 0.
    pub open spec fn head_period(&self) -> Option<i32> {
        self.head_param_from(ParamKey::Period, 0)
    }

    /// The end-to-end deadline of the task: that of the first node without
    /// successors that carries one.
    pub open spec fn end_to_end_deadline(&self) -> Option<i32> {
        self.tail_param_from(ParamKey::EndToEndDeadline, 0)
    }

    /// The volume only grows with the nodes counted.
    pub proof fn lemma_volume_monotone(&self, a: int, b: int)
        requires
            self.wf(),
            0 <= a <= b <= self.nodes@.len(),
        ensures
            0 <= self.volume_upto(a) <= self.volume_upto(b),
        decreases b,
    {
        if a < b {
            self.lemma_volume_monotone(a, b - 1);
            assert(self.nodes@[b - 1].has_valid_execution_time());
        } else if a > 0 {
            self.lemma_volume_monotone(a - 1, a - 1);
            assert(self.nodes@[a - 1].has_valid_execution_time());
        }
    }

    /// Sum of the execution times of all nodes; `Overflow` exactly when it
    /// is more than an `i32` holds.
    pub fn get_volume(&self) -> (total: Result<i32, CustomError>)
        requires
            self.wf(),
        ensures
            match total {
                Ok(sum) => sum == self.volume(),
                Err(e) => e == CustomError::Overflow && self.volume() > i32::MAX,
            },
    {
        let n = self.nodes.len();
        let mut sum: i32 = 0;
        let mut v: usize = 0;
        while v < n
            invariant
                self.wf(),
                n == self.nodes@.len(),
                v <= n,
                sum == self.volume_upto(v as int),
                sum >= 0,
            decreases n - v,
        {
            let wcet = self.get_execution_time(v);
            if wcet > i32::MAX - sum {
                proof {
                    self.lemma_volume_monotone(v + 1, n as int);
                }
                return Err(CustomError::Overflow);
            }
            sum = sum + wcet;
            v += 1;
        }
        Ok(sum)
    }

    /// The period of the task, if its head carries one.
    pub fn get_head_period(&self) -> (period: Option<i32>)
        requires
            self.wf(),
        ensures
            period == self.head_period(),
    {
        let flags = self.incoming_flags();
        let n = self.nodes.len();
        let mut v: usize = 0;
        while v < n
            invariant
                n == self.nodes@.len(),
                v <= n,
                flags@.len() == n,
                forall|u: int| 0 <= u < n ==> #[trigger] flags@[u] == !self.is_source_node(u),
                self.head_period() == self.head_param_from(ParamKey::Period, v as int),
            decreases n - v,
        {
            if !flags[v] {
                if let Some(period) = self.nodes[v].period {
                    return Some(period);
                }
            }
            v += 1;
        }
        None
    }

    /// The end-to-end deadline of the task, if its tail carries one.
    pub fn get_end_to_end_deadline(&self) -> (deadline: Option<i32>)
        requires
            self.wf(),
        ensures
            deadline == self.end_to_end_deadline(),
    {
        let flags = self.outgoing_flags();
        let n = self.nodes.len();
        let mut v: usize = 0;
        while v < n
            invariant
                n == self.nodes@.len(),
                v <= n,
                flags@.len() == n,
                forall|u: int| 0 <= u < n ==> #[trigger] flags@[u] == !self.is_sink_node(u),
                self.end_to_end_deadline() == self.tail_param_from(
                    ParamKey::EndToEndDeadline,
                    v as int,
                ),
            decreases n - v,
        {
            if !flags[v] {
                if let Some(deadline) = self.nodes[v].end_to_end_deadline {
                    return Some(deadline);
                }
            }
            v += 1;
        }
        None
    }

    /// The nodes that no edge enters, in ascending order.
    pub fn get_source_nodes(&self) -> (sources: Vec<usize>)
        requires
            self.wf(),
        ensures
            forall|i: int, j: int| 0 <= i < j < sources@.len() ==> sources@[i] < sources@[j],
            forall|i: int|
                0 <= i < sources@.len() ==> (#[trigger] sources@[i]) < self.nodes@.len()
                    && self.is_source_node(sources@[i] as int),
            forall|v: usize|
                v < self.nodes@.len() && self.is_source_node(v as int) ==> #[trigger] sources@.contains(v),
    {
        let flags = self.incoming_flags();
        let n = self.nodes.len();
        let mut sources: Vec<usize> = Vec::new();
        let mut v: usize = 0;
        while v < n
            invariant
                n == self.nodes@.len(),
                v <= n,
                flags@.len() == n,
                forall|u: int| 0 <= u < n ==> #[trigger] flags@[u] == !self.is_source_node(u),
                forall|i: int, j: int| 0 <= i < j < sources@.len() ==> sources@[i] < sources@[j],
                forall|i: int|
                    0 <= i < sources@.len() ==> (#[trigger] sources@[i]) < v && self.is_source_node(
                        sources@[i] as int,
                    ),
                forall|u: usize|
                    u < v && self.is_source_node(u as int) ==> #[trigger] sources@.contains(u),
            decreases n - v,
        {
            if !flags[v] {
                let ghost before = sources@;
                sources.push(v);
                assert(sources@[before.len() as int] == v);
                assert forall|u: usize| u < v + 1 && self.is_source_node(u as int) implies #[trigger] sources@.contains(u) by {
                    if u < v {
                        assert(before.contains(u));
                        let i = choose|i: int| 0 <= i < before.len() && before[i] == u;
                        assert(sources@[i] == u);
                    }
                }
            }
            v += 1;
        }
        sources
    }

    /// The nodes that no edge leaves, in ascending order.
    pub fn get_sink_nodes(&self) -> (sinks: Vec<usize>)
        requires
            self.wf(),
        ensures
            forall|i: int, j: int| 0 <= i < j < sinks@.len() ==> sinks@[i] < sinks@[j],
            forall|i: int|
                0 <= i < sinks@.len() ==> (#[trigger] sinks@[i]) < self.nodes@.len()
                    && self.is_sink_node(sinks@[i] as int),
            forall|v: usize|
                v < self.nodes@.len() && self.is_sink_node(v as int) ==> #[trigger] sinks@.contains(v),
    {
        let flags = self.outgoing_flags();
        let n = self.nodes.len();
        let mut sinks: Vec<usize> = Vec::new();
        let mut v: usize = 0;
        while v < n
            invariant
                n == self.nodes@.len(),
                v <= n,
                flags@.len() == n,
                forall|u: int| 0 <= u < n ==> #[trigger] flags@[u] == !self.is_sink_node(u),
                forall|i: int, j: int| 0 <= i < j < sinks@.len() ==> sinks@[i] < sinks@[j],
                forall|i: int|
                    0 <= i < sinks@.len() ==> (#[trigger] sinks@[i]) < v && self.is_sink_node(
                        sinks@[i] as int,
                    ),
                forall|u: usize|
                    u < v && self.is_sink_node(u as int) ==> #[trigger] sinks@.contains(u),
            decreases n - v,
        {
            if !flags[v] {
                let ghost before = sinks@;
                sinks.push(v);
                assert(sinks@[before.len() as int] == v);
                assert forall|u: usize| u < v + 1 && self.is_sink_node(u as int) implies #[trigger] sinks@.contains(u) by {
                    if u < v {
                        assert(before.contains(u));
                        let i = choose|i: int| 0 <= i < before.len() && before[i] == u;
                        assert(sinks@[i] == u);
                    }
                }
            }
            v += 1;
        }
        sinks
    }

    /// Binds `key` to `value` at the node at `node_i` if the node does not
    /// carry `key` yet; says whether it did so. The execution time, which
    /// every node carries, is never touched.
    pub fn add_param(&mut self, node_i: usize, key: ParamKey, value: i32) -> (added: bool)
        requires
            old(self).wf(),
            node_i < old(self).nodes@.len(),
        ensures
            final(self).wf(),
            final(self).edges@ == old(self).edges@,
            added == (old(self).nodes@[node_i as int].param(key) is None),
            final(self).nodes@ == if added {
                old(self).nodes@.update(
                    node_i as int,
                    old(self).nodes@[node_i as int].with_param(key, Some(value)),
                )
            } else {
                old(self).nodes@
            },
    {
        let node: NodeData = self.nodes[node_i];
        assert(node.has_valid_execution_time());
        if node.get_param(key).is_some() {
            return false;
        }
        self.nodes[node_i] = node.set_param(key, value);
        assert forall|i: int| 0 <= i < self.nodes@.len() implies (#[trigger] self.nodes@[i]).has_valid_execution_time()
            && self.nodes@[i].id == old(self).nodes@[i].id by {
            assert(old(self).nodes@[i].has_valid_execution_time());
        }
        true
    }

    /// Rebinds `key` to `value` at the node at `node_i` if the node carries
    /// `key` and, for the execution time, `value` is not negative; says
    /// whether it did so.
    pub fn update_param(&mut self, node_i: usize, key: ParamKey, value: i32) -> (updated: bool)
        requires
            old(self).wf(),
            node_i < old(self).nodes@.len(),
        ensures
            final(self).wf(),
            final(self).edges@ == old(self).edges@,
            updated == (old(self).nodes@[node_i as int].param(key) is Some && !(key
                == ParamKey::ExecutionTime && value < 0)),
            final(self).nodes@ == if updated {
                old(self).nodes@.update(
                    node_i as int,
                    old(self).nodes@[node_i as int].with_param(key, Some(value)),
                )
            } else {
                old(self).nodes@
            },
    {
        let node: NodeData = self.nodes[node_i];
        assert(node.has_valid_execution_time());
        if node.get_param(key).is_none() {
            return false;
        }
        if key == ParamKey::ExecutionTime && value < 0 {
            return false;
        }
        self.nodes[node_i] = node.set_param(key, value);
        assert forall|i: int| 0 <= i < self.nodes@.len() implies (#[trigger] self.nodes@[i]).has_valid_execution_time()
            && self.nodes@[i].id == old(self).nodes@[i].id by {
            assert(old(self).nodes@[i].has_valid_execution_time());
        }
        true
    }
}

} // verus!
