//! Why the run of one task ends: every tick takes something off what is
//! left to do.

use crate::engine_model::{
    dag_of, inserted, is_job_node, node_of, sorted_by_priority, EngineView, NodeState, PassView,
    PreemptiveType, RunView,
};
use crate::fixed_priority_scheduler::ticks_of;
use crate::graph_extension::{is_topological_order, NodeData};
use crate::processor::{can_run, Core};
use vstd::prelude::*;

verus! {

/// The ticks that a core has before it: those that its node has left, a
/// node with nothing left counting as one tick; none where it is idle.
pub open spec fn core_ticks(core: Core) -> int {
    if core.is_idle() {
        0
    } else if core.remain_proc_time >= 1 {
        core.remain_proc_time as int
    } else {
        1
    }
}

/// The execution time that the nodes of `queue` have before them.
pub open spec fn queue_work(queue: Seq<NodeData>) -> int
    decreases queue.len(),
{
    if queue.len() == 0 {
        0
    } else {
        queue_work(queue.drop_last()) + ticks_of(queue.last())
    }
}

/// The execution time that the nodes on the first `upto` of `cores` have
/// before them.
pub open spec fn cores_work(cores: Seq<Core>, upto: int) -> int
    decreases upto,
{
    if upto <= 0 {
        0
    } else {
        cores_work(cores, upto - 1) + core_ticks(cores[upto - 1])
    }
}

/// Whether the node at place `v` of its task waits in `queue`.
pub open spec fn is_queued(queue: Seq<NodeData>, v: int) -> bool {
    exists|i: int| 0 <= i < queue.len() && node_of(#[trigger] queue[i]) == v
}

/// Whether the node at place `v` of its task runs on one of `cores`.
pub open spec fn is_on_core(cores: Seq<Core>, v: int) -> bool {
    exists|c: int|
        0 <= c < cores.len() && !(#[trigger] cores[c]).is_idle() && node_of(
            cores[c].processing_node->0,
        ) == v
}

/// Whether `a` and `b` are the same task with the same nodes done at the
/// same times.
pub open spec fn same_done(a: RunView, b: RunView) -> bool {
    &&& a.dag == b.dag
    &&& a.states.len() == b.states.len()
    &&& a.finish_times == b.finish_times
    &&& forall|v: int|
        0 <= v < a.states.len() ==> ((#[trigger] a.states[v]) == NodeState::Finished) == (b.states[v]
            == NodeState::Finished)
}

impl RunView {
    /// The execution time of the first `upto` nodes that wait for their
    /// predecessors.
    pub open spec fn idle_work(self, upto: int) -> int
        decreases upto,
    {
        if upto <= 0 {
            0
        } else {
            self.idle_work(upto - 1) + if self.states[upto - 1] == NodeState::Idle {
                ticks_of(self.dag.nodes@[upto - 1])
            } else {
                0
            }
        }
    }

    /// How long the data of edge `e` has yet to travel at `time`: all of
    /// its communication time while its source is not done, and what is left
    /// of it afterwards.
    pub open spec fn pend(self, e: int, time: int) -> int {
        let edge = self.dag.edges@[e];
        if self.states[edge.source as int] == NodeState::Finished {
            let left = self.finish_times[edge.source as int] + edge.communication_time - time;
            if left > 0 {
                left
            } else {
                0
            }
        } else {
            edge.communication_time as int
        }
    }

    /// How long the data of the first `upto` edges has yet to travel.
    pub open spec fn pending(self, time: int, upto: int) -> int
        decreases upto,
    {
        if upto <= 0 {
            0
        } else {
            self.pending(time, upto - 1) + self.pend(upto - 1, time)
        }
    }
}

impl EngineView {
    /// What is left to do: the execution time that the nodes on the cores,
    /// in the ready queue and before their release into it have before
    /// them, and the time that data has yet to travel.
    pub open spec fn work_left(self) -> int {
        cores_work(self.cores, self.cores.len() as int) + queue_work(self.queue)
            + self.runs[0].idle_work(self.runs[0].states.len() as int) + self.runs[0].pending(
            self.time as int,
            self.runs[0].dag.edges@.len() as int,
        )
    }

    /// Whether the engine runs one acyclic task, released once, on shared
    /// cores without displacement, and every node is where its state says.
    pub open spec fn is_steady(self) -> bool {
        let r = self.runs[0];
        &&& self.wf()
        &&& self.runs.len() == 1
        &&& 1 <= self.cores.len() <= usize::MAX
        &&& !r.heavy
        &&& forall|c: int| 0 <= c < self.owners.len() ==> (#[trigger] self.owners[c]) is None
        &&& self.policy == PreemptiveType::NonPreemptive
        &&& r.next_release is None
        &&& r.backlog == 0
        &&& r.job_id >= 1
        &&& r.dag.is_acyclic()
        &&& r.active ==> !r.is_complete()
        &&& forall|v: int|
            0 <= v < r.states.len() && ((#[trigger] r.states[v]) == NodeState::Ready || r.states[v]
                == NodeState::Preempted) ==> is_queued(self.queue, v)
        &&& forall|v: int|
            0 <= v < r.states.len() && (#[trigger] r.states[v]) == NodeState::Running
                ==> is_on_core(self.cores, v)
        &&& forall|c: int|
            0 <= c < self.cores.len() && !(#[trigger] self.cores[c]).is_idle() ==> r.states[node_of(
                self.cores[c].processing_node->0,
            )] == NodeState::Running
        &&& forall|c: int, k: int|
            0 <= c < k < self.cores.len() && !(#[trigger] self.cores[c]).is_idle() && !(
            #[trigger] self.cores[k]).is_idle() ==> node_of(self.cores[c].processing_node->0)
                != node_of(self.cores[k].processing_node->0)
        &&& waits(r, self.queue)
        &&& is_distinct(self.queue)
        &&& forall|v: int|
            0 <= v < r.finish_times.len() ==> (#[trigger] r.finish_times[v]) <= self.time
    }
}

/// Whether every node of `queue` is in a state of waiting for a core.
pub open spec fn waits(r: RunView, queue: Seq<NodeData>) -> bool {
    forall|i: int|
        0 <= i < queue.len() ==> r.states[node_of(#[trigger] queue[i])] == NodeState::Ready
            || r.states[node_of(queue[i])] == NodeState::Preempted
}

/// Whether no node stands in `queue` twice.
pub open spec fn is_distinct(queue: Seq<NodeData>) -> bool {
    forall|i: int, j: int|
        0 <= i < j < queue.len() ==> node_of(#[trigger] queue[i]) != node_of(#[trigger] queue[j])
}

/// Whether every node of `inner` is a node of `outer`.
pub open spec fn is_within(inner: Seq<NodeData>, outer: Seq<NodeData>) -> bool {
    forall|i: int| 0 <= i < inner.len() ==> outer.contains(#[trigger] inner[i])
}

/// Inserting a node into a queue adds its execution time to the work of the
/// queue, keeps the nodes that were there, and adds no other node; where no
/// node stood in the queue twice and the node is new, none does afterwards.
pub proof fn lemma_inserted_keeps(queue: Seq<NodeData>, x: NodeData)
    ensures
        queue_work(inserted(queue, x)) == queue_work(queue) + ticks_of(x),
        inserted(queue, x).contains(x),
        is_within(queue, inserted(queue, x)),
        is_within(inserted(queue, x), queue.push(x)),
        is_distinct(queue) && !is_queued(queue, node_of(x)) ==> is_distinct(inserted(queue, x)),
    decreases queue.len(),
{
    let result = inserted(queue, x);
    if queue.len() > 0 && crate::engine_model::priority_of(queue.last())
        > crate::engine_model::priority_of(x) {
        let head = queue.drop_last();
        let inner = inserted(head, x);
        lemma_inserted_keeps(head, x);
        assert(result.drop_last() =~= inner);
        assert(result.last() == queue.last());
        let at = choose|at: int| 0 <= at < inner.len() && inner[at] == x;
        assert(result[at] == x);
        assert forall|i: int| 0 <= i < queue.len() implies result.contains(
            #[trigger] queue[i],
        ) by {
            if i < head.len() {
                assert(inner.contains(head[i]));
                let k = choose|k: int| 0 <= k < inner.len() && inner[k] == head[i];
                assert(result[k] == queue[i]);
            } else {
                assert(result[result.len() - 1] == queue[i]);
            }
        }
        assert forall|i: int| 0 <= i < result.len() implies queue.push(x).contains(
            #[trigger] result[i],
        ) by {
            if i < inner.len() {
                assert(head.push(x).contains(inner[i]));
                let k = choose|k: int| 0 <= k < head.push(x).len() && head.push(x)[k] == inner[i];
                if k < head.len() {
                    assert(queue.push(x)[k] == result[i]);
                } else {
                    assert(queue.push(x)[queue.len() as int] == result[i]);
                }
            } else {
                assert(queue.push(x)[queue.len() - 1] == result[i]);
            }
        }
        if is_distinct(queue) && !is_queued(queue, node_of(x)) {
            assert(is_distinct(head)) by {
                assert forall|i: int, j: int| 0 <= i < j < head.len() implies node_of(
                    #[trigger] head[i],
                ) != node_of(#[trigger] head[j]) by {
                    assert(head[i] == queue[i] && head[j] == queue[j]);
                }
            }
            assert(!is_queued(head, node_of(x))) by {
                if is_queued(head, node_of(x)) {
                    let i = choose|i: int|
                        0 <= i < head.len() && node_of(#[trigger] head[i]) == node_of(x);
                    assert(node_of(queue[i]) == node_of(x));
                }
            }
            assert forall|i: int, j: int| 0 <= i < j < result.len() implies node_of(
                #[trigger] result[i],
            ) != node_of(#[trigger] result[j]) by {
                if j < inner.len() {
                    assert(result[i] == inner[i] && result[j] == inner[j]);
                } else {
                    assert(result[i] == inner[i]);
                    assert(head.push(x).contains(inner[i]));
                    let k = choose|k: int|
                        0 <= k < head.push(x).len() && head.push(x)[k] == inner[i];
                    if k < head.len() {
                        assert(node_of(queue[k]) != node_of(queue[queue.len() - 1]));
                    } else {
                        assert(node_of(queue[queue.len() - 1]) != node_of(x));
                    }
                }
            }
        }
    } else {
        assert(result =~= queue.push(x));
        assert(result.drop_last() =~= queue);
        assert(result[queue.len() as int] == x);
        assert forall|i: int| 0 <= i < queue.len() implies result.contains(
            #[trigger] queue[i],
        ) by {
            assert(result[i] == queue[i]);
        }
        assert forall|i: int| 0 <= i < result.len() implies queue.push(x).contains(
            #[trigger] result[i],
        ) by {
            assert(queue.push(x)[i] == result[i]);
        }
        if is_distinct(queue) && !is_queued(queue, node_of(x)) {
            assert forall|i: int, j: int| 0 <= i < j < result.len() implies node_of(
                #[trigger] result[i],
            ) != node_of(#[trigger] result[j]) by {
                if j < queue.len() {
                    assert(result[i] == queue[i] && result[j] == queue[j]);
                } else {
                    assert(result[i] == queue[i]);
                }
            }
        }
    }
}

/// Ordering a queue keeps its work and its nodes, and adds no node; where
/// no node stood in the queue twice, none does afterwards.
pub proof fn lemma_sorted_keeps(queue: Seq<NodeData>)
    ensures
        queue_work(sorted_by_priority(queue)) == queue_work(queue),
        is_within(queue, sorted_by_priority(queue)),
        is_within(sorted_by_priority(queue), queue),
        is_distinct(queue) ==> is_distinct(sorted_by_priority(queue)),
    decreases queue.len(),
{
    if queue.len() > 0 {
        let head = queue.drop_last();
        let x = queue.last();
        let inner = sorted_by_priority(head);
        let result = sorted_by_priority(queue);
        lemma_sorted_keeps(head);
        lemma_inserted_keeps(inner, x);
        assert forall|i: int| 0 <= i < queue.len() implies result.contains(
            #[trigger] queue[i],
        ) by {
            if i < head.len() {
                assert(inner.contains(head[i]));
                let k = choose|k: int| 0 <= k < inner.len() && inner[k] == head[i];
                assert(result.contains(inner[k]));
            }
        }
        assert forall|i: int| 0 <= i < result.len() implies queue.contains(
            #[trigger] result[i],
        ) by {
            assert(inner.push(x).contains(result[i]));
            let k = choose|k: int| 0 <= k < inner.push(x).len() && inner.push(x)[k] == result[i];
            if k < inner.len() {
                assert(head.contains(inner[k]));
                let j = choose|j: int| 0 <= j < head.len() && head[j] == inner[k];
                assert(queue[j] == result[i]);
            } else {
                assert(queue[queue.len() - 1] == result[i]);
            }
        }
        if is_distinct(queue) {
            assert(is_distinct(head)) by {
                assert forall|i: int, j: int| 0 <= i < j < head.len() implies node_of(
                    #[trigger] head[i],
                ) != node_of(#[trigger] head[j]) by {
                    assert(head[i] == queue[i] && head[j] == queue[j]);
                }
            }
            assert(!is_queued(inner, node_of(x))) by {
                if is_queued(inner, node_of(x)) {
                    let i = choose|i: int|
                        0 <= i < inner.len() && node_of(#[trigger] inner[i]) == node_of(x);
                    assert(head.contains(inner[i]));
                    let j = choose|j: int| 0 <= j < head.len() && head[j] == inner[i];
                    assert(node_of(queue[j]) != node_of(queue[queue.len() - 1]));
                }
            }
        }
    }
}

/// Whether a node is ready depends on its own state and on which nodes are
/// done, and when.
pub proof fn lemma_ready_same(a: RunView, b: RunView, v: int, time: int, upto: int)
    requires
        same_done(a, b),
        a.dag.wf(),
        a.states.len() == a.dag.nodes@.len(),
        0 <= upto <= a.dag.edges@.len(),
    ensures
        a.ready_upto(v, time, upto) == b.ready_upto(v, time, upto),
    decreases upto,
{
    if upto > 0 {
        lemma_ready_same(a, b, v, time, upto - 1);
        let e = a.dag.edges@[upto - 1];
        assert(e.source < a.states.len());
        assert((a.states[e.source as int] == NodeState::Finished) == (b.states[e.source as int]
            == NodeState::Finished));
    }
}

/// How long data has yet to travel depends on which nodes are done, and
/// when.
pub proof fn lemma_pending_same(a: RunView, b: RunView, time: int, upto: int)
    requires
        same_done(a, b),
        a.dag.wf(),
        a.states.len() == a.dag.nodes@.len(),
        0 <= upto <= a.dag.edges@.len(),
    ensures
        a.pending(time, upto) == b.pending(time, upto),
    decreases upto,
{
    if upto > 0 {
        lemma_pending_same(a, b, time, upto - 1);
        let e = a.dag.edges@[upto - 1];
        assert(e.source < a.states.len());
        assert((a.states[e.source as int] == NodeState::Finished) == (b.states[e.source as int]
            == NodeState::Finished));
    }
}

/// Taking a node out of the wait for its predecessors takes its execution
/// time off the work of the waiting nodes.
pub proof fn lemma_idle_work_without(r: RunView, v: int, state: NodeState, upto: int)
    requires
        0 <= v < r.states.len(),
        0 <= upto <= r.states.len(),
        r.states[v] == NodeState::Idle,
        state != NodeState::Idle,
    ensures
        r.with_state(v, state).idle_work(upto) == r.idle_work(upto) - if v < upto {
            ticks_of(r.dag.nodes@[v])
        } else {
            0
        },
    decreases upto,
{
    if upto > 0 {
        lemma_idle_work_without(r, v, state, upto - 1);
    }
}

/// A change of state between states other than waiting for predecessors
/// leaves the work of the waiting nodes as it is.
pub proof fn lemma_idle_work_kept(r: RunView, v: int, state: NodeState, upto: int)
    requires
        0 <= v < r.states.len(),
        0 <= upto <= r.states.len(),
        r.states[v] != NodeState::Idle,
        state != NodeState::Idle,
    ensures
        r.with_state(v, state).idle_work(upto) == r.idle_work(upto),
    decreases upto,
{
    if upto > 0 {
        lemma_idle_work_kept(r, v, state, upto - 1);
    }
}

impl EngineView {
    /// Entering the ready queue keeps the engine steady and what is left to
    /// do as it is; and a node that has not entered is not ready.
    pub proof fn lemma_admit_run(self, upto: int)
        requires
            self.is_steady(),
            0 <= upto <= self.runs[0].states.len(),
        ensures
            self.admit_run(0, upto).is_steady(),
            self.admit_run(0, upto).work_left() == self.work_left(),
            self.admit_run(0, upto).time == self.time,
            self.admit_run(0, upto).horizon == self.horizon,
            self.admit_run(0, upto).cores == self.cores,
            self.admit_run(0, upto).runs[0].active == self.runs[0].active,
            same_done(self.admit_run(0, upto).runs[0], self.runs[0]),
            forall|v: int|
                upto <= v < self.runs[0].states.len() ==> (#[trigger] self.admit_run(
                    0,
                    upto,
                ).runs[0].states[v]) == self.runs[0].states[v],
            forall|v: int|
                0 <= v < upto && (#[trigger] self.admit_run(0, upto).runs[0].states[v])
                    == NodeState::Idle ==> !self.runs[0].is_ready(v, self.time as int)
                    && self.runs[0].states[v] == NodeState::Idle,
        decreases upto,
    {
        if upto > 0 {
            self.lemma_admit_run(upto - 1);
            let p = self.admit_run(0, upto - 1);
            let t = self.admit_run(0, upto);
            let v = upto - 1;
            let r = p.runs[0];
            let m = r.dag.edges@.len() as int;
            assert(r.wf(0));
            lemma_ready_same(r, self.runs[0], v, self.time as int, m);
            if r.is_ready(v, p.time as int) {
                let node = crate::engine_model::tagged(r.dag.nodes@[v], 0, v);
                let q = r.with_state(v, NodeState::Ready);
                assert(t.runs =~= p.runs.update(0, q));
                assert(t.runs[0] == q);
                assert(can_run(r.dag.nodes@[v]));
                assert(node.id == v && node.dag_id == Some(0i32) && can_run(node));
                assert(!r.is_complete());
                assert(q.wf(0)) by {
                    assert forall|u: int| 0 <= u < q.node_count() implies {
                        let nd = #[trigger] q.dag.nodes@[u];
                        nd.id >= 0 && can_run(nd)
                    } by {
                        assert(r.dag.nodes@[u].id >= 0);
                    }
                }
                assert forall|x: NodeData| is_job_node(p.runs, x) implies is_job_node(t.runs, x) by {}
                assert(is_job_node(t.runs, node));
                assert forall|i: int| 0 <= i < t.queue.len() implies is_job_node(
                    t.runs,
                    #[trigger] t.queue[i],
                ) by {
                    if i < p.queue.len() {
                        assert(is_job_node(p.runs, p.queue[i]));
                    }
                }
                assert forall|c: int|
                    0 <= c < t.cores.len() && !(#[trigger] t.cores[c]).is_idle() implies is_job_node(
                    t.runs,
                    t.cores[c].processing_node->0,
                ) && q.states[node_of(t.cores[c].processing_node->0)] == NodeState::Running by {
                    assert(is_job_node(p.runs, p.cores[c].processing_node->0));
                }
                assert forall|d: int| 0 <= d < t.runs.len() implies (#[trigger] t.runs[d]).wf(d) by {}
                assert(t.wf());
                assert(!q.is_complete()) by {
                    assert(q.states[v] == NodeState::Ready);
                }
                assert forall|u: int|
                    0 <= u < q.states.len() && ((#[trigger] q.states[u]) == NodeState::Ready
                        || q.states[u] == NodeState::Preempted) implies is_queued(t.queue, u) by {
                    if u == v {
                        assert(node_of(t.queue[p.queue.len() as int]) == v);
                    } else {
                        assert(r.states[u] == q.states[u]);
                        let i = choose|i: int|
                            0 <= i < p.queue.len() && node_of(#[trigger] p.queue[i]) == u;
                        assert(node_of(t.queue[i]) == u);
                    }
                }
                assert forall|u: int|
                    0 <= u < q.states.len() && (#[trigger] q.states[u])
                        == NodeState::Running implies is_on_core(t.cores, u) by {
                    assert(r.states[u] == NodeState::Running);
                }
                assert(waits(q, t.queue)) by {
                    assert forall|i: int| 0 <= i < t.queue.len() implies q.states[node_of(
                        #[trigger] t.queue[i],
                    )] == NodeState::Ready || q.states[node_of(t.queue[i])]
                        == NodeState::Preempted by {
                        if i < p.queue.len() {
                            assert(t.queue[i] == p.queue[i]);
                            assert(is_job_node(p.runs, p.queue[i]));
                        }
                    }
                }
                assert(is_distinct(t.queue)) by {
                    assert forall|i: int, j: int| 0 <= i < j < t.queue.len() implies node_of(
                        #[trigger] t.queue[i],
                    ) != node_of(#[trigger] t.queue[j]) by {
                        assert(t.queue[i] == p.queue[i]);
                        if j < p.queue.len() {
                            assert(t.queue[j] == p.queue[j]);
                        }
                    }
                }
                lemma_idle_work_without(r, v, NodeState::Ready, r.states.len() as int);
                assert(t.queue.drop_last() =~= p.queue);
                assert(queue_work(t.queue) == queue_work(p.queue) + ticks_of(node));
                assert(same_done(q, r));
                lemma_pending_same(q, r, t.time as int, m);
                assert forall|u: int|
                    0 <= u < upto && (#[trigger] t.runs[0].states[u])
                        == NodeState::Idle implies !self.runs[0].is_ready(u, self.time as int)
                    && self.runs[0].states[u] == NodeState::Idle by {
                    assert(u != v);
                    assert(p.runs[0].states[u] == NodeState::Idle);
                }
            } else {
                assert(t == p);
                assert forall|u: int|
                    0 <= u < upto && (#[trigger] t.runs[0].states[u])
                        == NodeState::Idle implies !self.runs[0].is_ready(u, self.time as int)
                    && self.runs[0].states[u] == NodeState::Idle by {
                    if u == v {
                        assert(self.runs[0].states[v] == r.states[v]);
                    }
                }
            }
        }
    }
}

impl EngineView {
    /// The whole entry into the ready queue, for the one task.
    pub proof fn lemma_admitted(self)
        requires
            self.is_steady(),
        ensures
            self.admitted() == self.admit_run(0, self.runs[0].states.len() as int),
    {
        assert(self.admit_runs(0) == self);
    }

    /// Ordering the ready queue keeps the engine steady and what is left
    /// to do as it is.
    pub proof fn lemma_sorted(self)
        requires
            self.is_steady(),
        ensures
            self.sorted().is_steady(),
            self.sorted().work_left() == self.work_left(),
            self.sorted().runs == self.runs,
            self.sorted().cores == self.cores,
            self.sorted().time == self.time,
            self.sorted().horizon == self.horizon,
    {
        let t = self.sorted();
        let r = self.runs[0];
        lemma_sorted_keeps(self.queue);
        assert forall|i: int| 0 <= i < t.queue.len() implies is_job_node(
            t.runs,
            #[trigger] t.queue[i],
        ) && (r.states[node_of(t.queue[i])] == NodeState::Ready || r.states[node_of(t.queue[i])]
            == NodeState::Preempted) by {
            assert(self.queue.contains(t.queue[i]));
            let j = choose|j: int| 0 <= j < self.queue.len() && self.queue[j] == t.queue[i];
            assert(is_job_node(self.runs, self.queue[j]));
        }
        assert forall|v: int|
            0 <= v < r.states.len() && ((#[trigger] r.states[v]) == NodeState::Ready || r.states[v]
                == NodeState::Preempted) implies is_queued(t.queue, v) by {
            let i = choose|i: int| 0 <= i < self.queue.len() && node_of(#[trigger] self.queue[i]) == v;
            assert(t.queue.contains(self.queue[i]));
            let k = choose|k: int| 0 <= k < t.queue.len() && t.queue[k] == self.queue[i];
            assert(node_of(t.queue[k]) == v);
        }
    }
}

/// Putting another node on a core changes the work on the cores by the
/// difference between what the two have before them.
pub proof fn lemma_cores_work_update(cores: Seq<Core>, c: int, core: Core, upto: int)
    requires
        0 <= c < cores.len(),
        0 <= upto <= cores.len(),
    ensures
        cores_work(cores.update(c, core), upto) == cores_work(cores, upto) + if c < upto {
            core_ticks(core) - core_ticks(cores[c])
        } else {
            0
        },
    decreases upto,
{
    if upto > 0 {
        lemma_cores_work_update(cores, c, core, upto - 1);
    }
}

/// Two views of a task in which the same nodes wait for their
/// predecessors have the same work waiting.
pub proof fn lemma_idle_work_same(a: RunView, b: RunView, upto: int)
    requires
        a.dag == b.dag,
        a.states.len() == b.states.len(),
        0 <= upto <= a.states.len(),
        forall|v: int|
            0 <= v < a.states.len() ==> ((#[trigger] a.states[v]) == NodeState::Idle) == (b.states[v]
                == NodeState::Idle),
    ensures
        a.idle_work(upto) == b.idle_work(upto),
    decreases upto,
{
    if upto > 0 {
        lemma_idle_work_same(a, b, upto - 1);
        assert((a.states[upto - 1] == NodeState::Idle) == (b.states[upto - 1] == NodeState::Idle));
    }
}

impl EngineView {
    /// Where a node of the one task finds no idle core, no core is idle.
    pub proof fn lemma_no_idle_core(self, from: int)
        requires
            self.is_steady(),
            0 <= from <= self.cores.len(),
        ensures
            match self.first_eligible_idle(0, from) {
                Some(c) => from <= c < self.cores.len() && self.cores[c as int].is_idle(),
                None => forall|c: int|
                    from <= c < self.cores.len() ==> !(#[trigger] self.cores[c]).is_idle(),
            },
        decreases self.cores.len() - from,
    {
        if from < self.cores.len() {
            assert(self.owners[from] is None);
            if !self.cores[from].is_idle() {
                self.lemma_no_idle_core(from + 1);
            }
        }
    }

    /// What holds while the nodes of the ready queue are considered: the
    /// state with the ready queue restored, that is, with the nodes that
    /// were not yet considered behind those that found no core, is steady;
    /// the same nodes are done and the same nodes wait for predecessors;
    /// the work on the cores and in the queue is what it was; and nodes wait
    /// only while no core is idle.
    pub open spec fn during_allocation(self, upto: int) -> bool {
        let p = self.allocate_upto(upto);
        let rest = self.queue.subrange(upto, self.queue.len() as int);
        let whole = EngineView { queue: p.view.queue + rest, ..p.view };
        &&& p.evicted.len() == 0
        &&& whole.is_steady()
        &&& p.view.time == self.time
        &&& p.view.horizon == self.horizon
        &&& p.view.runs[0].active == self.runs[0].active
        &&& same_done(p.view.runs[0], self.runs[0])
        &&& forall|v: int|
            0 <= v < self.runs[0].states.len() ==> ((#[trigger] p.view.runs[0].states[v])
                == NodeState::Idle) == (self.runs[0].states[v] == NodeState::Idle)
        &&& whole.work_left() == self.work_left()
        &&& p.view.queue.len() > 0 ==> forall|c: int|
            0 <= c < p.view.cores.len() ==> !(#[trigger] p.view.cores[c]).is_idle()
    }

    /// The allocation of cores keeps the engine steady and what is left to
    /// do as it is.
    pub proof fn lemma_allocate_upto(self, upto: int)
        requires
            self.is_steady(),
            0 <= upto <= self.queue.len(),
        ensures
            self.during_allocation(upto),
        decreases upto,
    {
        let len = self.queue.len() as int;
        if upto == 0 {
            let p = self.allocate_upto(0);
            let whole = EngineView { queue: p.view.queue + self.queue.subrange(0, len), ..p.view };
            assert(p.view.queue + self.queue.subrange(0, len) =~= self.queue);
            assert(whole == self);
        } else {
            self.lemma_allocate_upto(upto - 1);
            let before = self.allocate_upto(upto - 1);
            let x = self.queue[upto - 1];
            let rest_before = self.queue.subrange(upto - 1, len);
            let rest = self.queue.subrange(upto, len);
            let old_whole = EngineView { queue: before.view.queue + rest_before, ..before.view };
            let kept = before.view.queue;
            let i_x = kept.len() as int;
            assert(old_whole.queue[i_x] == x);
            assert(is_job_node(old_whole.runs, old_whole.queue[i_x]));
            assert(dag_of(x) == 0);
            let v = node_of(x);
            let r = before.view.runs[0];
            assert(r.states[v] == NodeState::Ready || r.states[v] == NodeState::Preempted) by {
                assert(r.states[node_of(old_whole.queue[i_x])] == NodeState::Ready
                    || r.states[node_of(old_whole.queue[i_x])] == NodeState::Preempted);
            }
            old_whole.lemma_no_idle_core(0);
            assert(before.view.first_eligible_idle(0, 0) == old_whole.first_eligible_idle(0, 0)) by {
                before.view.lemma_first_idle_ignores_queue(old_whole, 0);
            }
            let p = self.allocate_upto(upto);
            let whole = EngineView { queue: p.view.queue + rest, ..p.view };
            match before.view.placement(x) {
                Some(c) => {
                    assert(before.view.cores[c as int].is_idle());
                    assert(kept.len() == 0);
                    assert(p == before.bound(x, c));
                    let q = r.with_state(v, NodeState::Running);
                    assert(p.view.runs =~= before.view.runs.update(0, q));
                    assert(p.view.runs[0] == q);
                    assert(whole.queue =~= rest);
                    assert(old_whole.queue =~= rest_before);
                    assert forall|i: int| 0 <= i < rest.len() implies #[trigger] rest[i]
                        == rest_before[i + 1] by {}
                    assert(q.wf(0)) by {
                        assert(r.wf(0));
                        assert forall|u: int| 0 <= u < q.node_count() implies {
                            let nd = #[trigger] q.dag.nodes@[u];
                            nd.id >= 0 && can_run(nd)
                        } by {
                            assert(r.dag.nodes@[u].id >= 0);
                        }
                    }
                    assert forall|y: NodeData| is_job_node(before.view.runs, y) implies is_job_node(
                        p.view.runs,
                        y,
                    ) by {}
                    assert forall|i: int| 0 <= i < whole.queue.len() implies is_job_node(
                        whole.runs,
                        #[trigger] whole.queue[i],
                    ) && node_of(whole.queue[i]) != v && (q.states[node_of(whole.queue[i])]
                        == NodeState::Ready || q.states[node_of(whole.queue[i])]
                        == NodeState::Preempted) by {
                        assert(whole.queue[i] == old_whole.queue[i + 1]);
                        assert(is_job_node(old_whole.runs, old_whole.queue[i + 1]));
                        assert(node_of(old_whole.queue[0]) != node_of(old_whole.queue[i + 1]));
                        assert(r.states[node_of(old_whole.queue[i + 1])] == NodeState::Ready
                            || r.states[node_of(old_whole.queue[i + 1])] == NodeState::Preempted);
                    }
                    assert forall|k: int| 0 <= k < whole.cores.len() implies (
                    #[trigger] whole.cores[k]).wf() by {
                        if k != c {
                            assert(old_whole.cores[k].wf());
                        }
                    }
                    assert forall|k: int|
                        0 <= k < whole.cores.len() && !(#[trigger] whole.cores[k]).is_idle() implies is_job_node(
                        whole.runs,
                        whole.cores[k].processing_node->0,
                    ) && q.states[node_of(whole.cores[k].processing_node->0)]
                        == NodeState::Running by {
                        if k != c {
                            assert(is_job_node(
                                old_whole.runs,
                                old_whole.cores[k].processing_node->0,
                            ));
                            assert(r.states[node_of(old_whole.cores[k].processing_node->0)]
                                == NodeState::Running);
                        }
                    }
                    assert forall|k: int, j: int|
                        0 <= k < j < whole.cores.len() && !(#[trigger] whole.cores[k]).is_idle() && !(
                        #[trigger] whole.cores[j]).is_idle() implies node_of(
                        whole.cores[k].processing_node->0,
                    ) != node_of(whole.cores[j].processing_node->0) by {
                        if k == c {
                            assert(r.states[node_of(old_whole.cores[j].processing_node->0)]
                                == NodeState::Running);
                        } else if j == c {
                            assert(r.states[node_of(old_whole.cores[k].processing_node->0)]
                                == NodeState::Running);
                        } else {
                            assert(!old_whole.cores[k].is_idle() && !old_whole.cores[j].is_idle());
                        }
                    }
                    assert forall|i: int| 0 <= i < whole.events.len() implies (
                    #[trigger] whole.events[i]).dag_id < whole.runs.len() by {
                        if i < old_whole.events.len() {
                            assert(old_whole.events[i].dag_id < old_whole.runs.len());
                        }
                    }
                    assert forall|d: int| 0 <= d < whole.runs.len() implies (
                    #[trigger] whole.runs[d]).wf(d) by {}
                    assert(whole.wf());
                    assert(!q.is_complete()) by {
                        assert(q.states[v] == NodeState::Running);
                    }
                    assert forall|u: int|
                        0 <= u < q.states.len() && ((#[trigger] q.states[u]) == NodeState::Ready
                            || q.states[u] == NodeState::Preempted) implies is_queued(
                        whole.queue,
                        u,
                    ) by {
                        assert(r.states[u] == q.states[u]);
                        let i = choose|i: int|
                            0 <= i < old_whole.queue.len() && node_of(#[trigger] old_whole.queue[i])
                                == u;
                        assert(i != 0);
                        assert(node_of(whole.queue[i - 1]) == u);
                    }
                    assert forall|u: int|
                        0 <= u < q.states.len() && (#[trigger] q.states[u])
                            == NodeState::Running implies is_on_core(whole.cores, u) by {
                        if u == v {
                            assert(!whole.cores[c as int].is_idle() && node_of(
                                whole.cores[c as int].processing_node->0,
                            ) == v);
                        } else {
                            assert(r.states[u] == NodeState::Running);
                            let k = choose|k: int|
                                0 <= k < old_whole.cores.len() && !(
                                #[trigger] old_whole.cores[k]).is_idle() && node_of(
                                    old_whole.cores[k].processing_node->0,
                                ) == u;
                            assert(k != c);
                            assert(!whole.cores[k].is_idle() && node_of(
                                whole.cores[k].processing_node->0,
                            ) == u);
                        }
                    }
                    assert(is_distinct(whole.queue)) by {
                        assert forall|i: int, j: int| 0 <= i < j < whole.queue.len() implies node_of(
                            #[trigger] whole.queue[i],
                        ) != node_of(#[trigger] whole.queue[j]) by {
                            assert(whole.queue[i] == old_whole.queue[i + 1]);
                            assert(whole.queue[j] == old_whole.queue[j + 1]);
                        }
                    }
                    assert(whole.is_steady());
                    assert(same_done(q, r));
                    lemma_pending_same(q, r, whole.time as int, r.dag.edges@.len() as int);
                    lemma_idle_work_kept(r, v, NodeState::Running, r.states.len() as int);
                    lemma_cores_work_update(
                        old_whole.cores,
                        c as int,
                        Core::running(x),
                        old_whole.cores.len() as int,
                    );
                    assert(old_whole.cores[c as int].wf());
                    lemma_queue_work_front(old_whole.queue);
                    assert(old_whole.queue.subrange(1, old_whole.queue.len() as int)
                        =~= whole.queue);
                    assert(whole.work_left() == old_whole.work_left());
                },
                None => {
                    assert(p.view.queue == kept.push(x));
                    assert(p.view.queue + rest =~= kept + rest_before);
                    assert(whole == old_whole);
                    assert forall|c: int| 0 <= c < p.view.cores.len() implies !(
                    #[trigger] p.view.cores[c]).is_idle() by {
                        assert(!old_whole.cores[c].is_idle());
                    }
                },
            }
        }
    }

    /// Which core is the first idle one does not depend on the ready queue.
    pub proof fn lemma_first_idle_ignores_queue(self, other: EngineView, from: int)
        requires
            self.cores == other.cores,
            self.owners == other.owners,
            self.runs == other.runs,
        ensures
            self.first_eligible_idle(0, from) == other.first_eligible_idle(0, from),
        decreases self.cores.len() - from,
    {
        if 0 <= from < self.cores.len() {
            self.lemma_first_idle_ignores_queue(other, from + 1);
        }
    }
}

/// The work of a queue is that of its first node and of the nodes behind
/// it.
pub proof fn lemma_queue_work_front(queue: Seq<NodeData>)
    requires
        queue.len() > 0,
    ensures
        queue_work(queue) == ticks_of(queue[0]) + queue_work(queue.subrange(1, queue.len() as int)),
    decreases queue.len(),
{
    let tail = queue.subrange(1, queue.len() as int);
    if queue.len() == 1 {
        assert(queue.drop_last() =~= Seq::<NodeData>::empty());
        assert(tail =~= Seq::<NodeData>::empty());
    } else {
        lemma_queue_work_front(queue.drop_last());
        assert(queue.drop_last().subrange(1, queue.len() - 1) =~= tail.drop_last());
        assert(tail.last() == queue.last());
    }
}

/// Whether one of the first `upto` of `cores` runs the node at place `v`
/// to its end in the coming tick.
pub open spec fn is_finishing(cores: Seq<Core>, v: int, upto: int) -> bool {
    exists|c: int|
        0 <= c < upto && !(#[trigger] cores[c]).is_idle() && cores[c].remain_proc_time <= 1
            && node_of(cores[c].processing_node->0) == v
}

/// A tick takes nothing but work off the cores, and something off them
/// where a core is busy.
pub proof fn lemma_cores_work_ticked(cores: Seq<Core>, upto: int)
    requires
        0 <= upto <= cores.len(),
        forall|c: int| 0 <= c < cores.len() ==> (#[trigger] cores[c]).wf(),
    ensures
        cores_work(cores.map_values(|core: Core| core.ticked()), upto) <= cores_work(cores, upto),
        (exists|c: int| 0 <= c < upto && !(#[trigger] cores[c]).is_idle()) ==> cores_work(
            cores.map_values(|core: Core| core.ticked()),
            upto,
        ) <= cores_work(cores, upto) - 1,
        cores_work(cores.map_values(|core: Core| core.ticked()), upto) >= 0,
    decreases upto,
{
    if upto > 0 {
        lemma_cores_work_ticked(cores, upto - 1);
        let after = cores.map_values(|core: Core| core.ticked());
        assert(cores[upto - 1].wf());
        assert(after[upto - 1] == cores[upto - 1].ticked());
        if exists|c: int| 0 <= c < upto && !(#[trigger] cores[c]).is_idle() {
            let c = choose|c: int| 0 <= c < upto && !(#[trigger] cores[c]).is_idle();
            if c < upto - 1 {
                assert(!cores[c].is_idle());
            }
        }
    }
}

/// The work on the cores is never negative, and no less than what any one
/// core has before it.
pub proof fn lemma_cores_work_bounds(cores: Seq<Core>, upto: int)
    requires
        0 <= upto <= cores.len(),
        forall|c: int| 0 <= c < cores.len() ==> (#[trigger] cores[c]).wf(),
    ensures
        cores_work(cores, upto) >= 0,
        forall|c: int| 0 <= c < upto ==> cores_work(cores, upto) >= core_ticks(#[trigger] cores[c]),
    decreases upto,
{
    if upto > 0 {
        lemma_cores_work_bounds(cores, upto - 1);
        assert(cores[upto - 1].wf());
    }
}

/// The work of a queue of nodes that have time to run is never negative,
/// and no less than that of any one of them.
pub proof fn lemma_queue_work_bounds(queue: Seq<NodeData>)
    requires
        forall|i: int| 0 <= i < queue.len() ==> can_run(#[trigger] queue[i]),
    ensures
        queue_work(queue) >= 0,
        forall|i: int| 0 <= i < queue.len() ==> queue_work(queue) >= ticks_of(#[trigger] queue[i]),
    decreases queue.len(),
{
    if queue.len() > 0 {
        let head = queue.drop_last();
        assert forall|i: int| 0 <= i < head.len() implies can_run(#[trigger] head[i]) by {
            assert(head[i] == queue[i]);
        }
        lemma_queue_work_bounds(head);
        assert(can_run(queue[queue.len() - 1]));
        assert forall|i: int| 0 <= i < queue.len() implies queue_work(queue) >= ticks_of(
            #[trigger] queue[i],
        ) by {
            if i < head.len() {
                assert(head[i] == queue[i]);
            }
        }
    }
}

impl RunView {
    /// The work of the nodes that wait for predecessors is never negative,
    /// and no less than that of any one of them.
    pub proof fn lemma_idle_work_bounds(self, upto: int)
        requires
            self.wf(0),
            0 <= upto <= self.states.len(),
        ensures
            self.idle_work(upto) >= 0,
            forall|v: int|
                0 <= v < upto && (#[trigger] self.states[v]) == NodeState::Idle ==> self.idle_work(
                    upto,
                ) >= ticks_of(self.dag.nodes@[v]),
        decreases upto,
    {
        if upto > 0 {
            self.lemma_idle_work_bounds(upto - 1);
            assert(can_run(self.dag.nodes@[upto - 1]));
        }
    }

    /// The time that data has yet to travel is never negative, and no less
    /// than that of any one edge.
    pub proof fn lemma_pending_bounds(self, time: int, upto: int)
        requires
            self.wf(0),
            0 <= upto <= self.dag.edges@.len(),
        ensures
            self.pending(time, upto) >= 0,
            forall|e: int| 0 <= e < upto ==> self.pending(time, upto) >= #[trigger] self.pend(e, time),
        decreases upto,
    {
        if upto > 0 {
            self.lemma_pending_bounds(time, upto - 1);
            assert(self.dag.edges@[upto - 1].communication_time >= 0);
        }
    }

    /// After a tick, data has no longer to travel than before it, and
    /// less where the source of some edge was done and its data under way:
    /// `after` is this view one tick later, in which nodes that were done are
    /// done at the same time and nodes that are newly done are done now.
    pub proof fn lemma_pending_after(self, after: RunView, time: int, upto: int)
        requires
            self.wf(0),
            after.dag == self.dag,
            after.states.len() == self.states.len(),
            after.finish_times.len() == self.finish_times.len(),
            0 <= upto <= self.dag.edges@.len(),
            forall|v: int|
                0 <= v < self.states.len() && (#[trigger] self.states[v]) == NodeState::Finished
                    ==> after.states[v] == NodeState::Finished && after.finish_times[v]
                    == self.finish_times[v],
            forall|v: int|
                0 <= v < self.states.len() && (#[trigger] self.states[v]) != NodeState::Finished
                    && after.states[v] == NodeState::Finished ==> after.finish_times[v] == time + 1,
        ensures
            after.pending(time + 1, upto) <= self.pending(time, upto),
            (exists|e: int|
                0 <= e < upto && self.states[(#[trigger] self.dag.edges@[e]).source as int]
                    == NodeState::Finished && self.pend(e, time) >= 1) ==> after.pending(
                time + 1,
                upto,
            ) <= self.pending(time, upto) - 1,
        decreases upto,
    {
        if upto > 0 {
            self.lemma_pending_after(after, time, upto - 1);
            let edge = self.dag.edges@[upto - 1];
            let u = edge.source as int;
            assert(edge.source < self.states.len());
            assert(edge.communication_time >= 0);
            assert(after.pend(upto - 1, time + 1) <= self.pend(upto - 1, time)) by {
                if self.states[u] == NodeState::Finished {
                    assert(after.states[u] == NodeState::Finished);
                } else if after.states[u] == NodeState::Finished {
                    assert(after.finish_times[u] == time + 1);
                }
            }
            if exists|e: int|
                0 <= e < upto && self.states[(#[trigger] self.dag.edges@[e]).source as int]
                    == NodeState::Finished && self.pend(e, time) >= 1 {
                let e = choose|e: int|
                    0 <= e < upto && self.states[(#[trigger] self.dag.edges@[e]).source as int]
                        == NodeState::Finished && self.pend(e, time) >= 1;
                if e == upto - 1 {
                    assert(after.states[u] == NodeState::Finished);
                    assert(after.pend(upto - 1, time + 1) <= self.pend(upto - 1, time) - 1);
                } else {
                    assert(self.states[self.dag.edges@[e].source as int] == NodeState::Finished);
                }
            }
        }
    }
}

impl EngineView {
    /// The engine once the cores have run for a tick, before what they did
    /// is recorded.
    pub open spec fn with_cores_ticked(self) -> EngineView {
        EngineView { cores: self.cores.map_values(|core: Core| core.ticked()), ..self }
    }

    /// What recording the tick on the first `upto` cores makes of the one
    /// task: the nodes that ran to their end are done, now; nothing else
    /// changes but the record.
    pub open spec fn recorded_upto(self, upto: int) -> bool {
        let t = self.with_cores_ticked().process_upto(self.cores, upto);
        let r = self.runs[0];
        let q = t.runs[0];
        &&& t.cores == self.with_cores_ticked().cores
        &&& t.queue == self.queue
        &&& t.owners == self.owners
        &&& t.policy == self.policy
        &&& t.time == self.time
        &&& t.horizon == self.horizon
        &&& t.busy.len() == self.busy.len()
        &&& forall|k: int|
            0 <= k < t.busy.len() ==> 0 <= (#[trigger] t.busy[k]).total_proc_time <= if k
                < upto {
                self.time + 1
            } else {
                self.time as int
            }
        &&& t.runs.len() == 1
        &&& q.dag == r.dag
        &&& q.heavy == r.heavy
        &&& q.period == r.period
        &&& q.next_release == r.next_release
        &&& q.job_id == r.job_id
        &&& q.backlog == r.backlog
        &&& q.release_times == r.release_times
        &&& q.states.len() == r.states.len()
        &&& q.finish_times.len() == r.finish_times.len()
        &&& forall|v: int|
            0 <= v < r.states.len() ==> #[trigger] q.states[v] == if is_finishing(
                self.cores,
                v,
                upto,
            ) {
                NodeState::Finished
            } else {
                r.states[v]
            }
        &&& forall|v: int|
            0 <= v < r.states.len() ==> #[trigger] q.finish_times[v] == if is_finishing(
                self.cores,
                v,
                upto,
            ) {
                (self.time + 1) as i32
            } else {
                r.finish_times[v]
            }
        &&& forall|i: int| 0 <= i < q.finish_log.len() ==> (#[trigger] q.finish_log[i]) >= 0
        &&& forall|i: int| 0 <= i < t.events.len() ==> (#[trigger] t.events[i]).dag_id < 1
        &&& q.active ==> !q.is_complete()
        &&& r.active && !q.active ==> exists|v: int|
            0 <= v < r.states.len() && #[trigger] is_finishing(self.cores, v, upto)
    }

    /// Recording a tick does what `recorded_upto` says.
    pub proof fn lemma_process_upto(self, upto: int)
        requires
            self.is_steady(),
            self.time < self.horizon,
            0 <= upto <= self.cores.len(),
        ensures
            self.recorded_upto(upto),
        decreases upto,
    {
        let r = self.runs[0];
        assert(r.wf(0));
        if upto > 0 {
            self.lemma_process_upto(upto - 1);
            let before = self.with_cores_ticked().process_upto(self.cores, upto - 1);
            let t = self.with_cores_ticked().process_upto(self.cores, upto);
            let core = self.cores[upto - 1];
            let p = before.runs[0];
            let q = t.runs[0];
            assert(core.wf());
            if r.active && !p.active {
                let v = choose|v: int|
                    0 <= v < r.states.len() && #[trigger] is_finishing(self.cores, v, upto - 1);
                let c = choose|c: int|
                    0 <= c < upto - 1 && !(#[trigger] self.cores[c]).is_idle()
                        && self.cores[c].remain_proc_time <= 1 && node_of(
                        self.cores[c].processing_node->0,
                    ) == v;
                assert(is_finishing(self.cores, v, upto));
            }
            match core.processing_node {
                None => {
                    assert(t == before);
                    assert forall|v: int| 0 <= v < r.states.len() implies is_finishing(
                        self.cores,
                        v,
                        upto,
                    ) == is_finishing(self.cores, v, upto - 1) by {
                        if is_finishing(self.cores, v, upto) {
                            let c = choose|c: int|
                                0 <= c < upto && !(#[trigger] self.cores[c]).is_idle()
                                    && self.cores[c].remain_proc_time <= 1 && node_of(
                                    self.cores[c].processing_node->0,
                                ) == v;
                            assert(c < upto - 1);
                        }
                    }
                },
                Some(y) => {
                    assert(is_job_node(self.runs, y));
                    let w = node_of(y);
                    if core.remain_proc_time <= 1 {
                        assert(is_finishing(self.cores, w, upto));
                        assert forall|v: int| 0 <= v < r.states.len() && v != w implies is_finishing(
                            self.cores,
                            v,
                            upto,
                        ) == is_finishing(self.cores, v, upto - 1) by {
                            if is_finishing(self.cores, v, upto) {
                                let c = choose|c: int|
                                    0 <= c < upto && !(#[trigger] self.cores[c]).is_idle()
                                        && self.cores[c].remain_proc_time <= 1 && node_of(
                                        self.cores[c].processing_node->0,
                                    ) == v;
                                assert(c < upto - 1);
                            }
                        }
                        assert(t.runs.len() == 1);
                        assert forall|i: int| 0 <= i < t.events.len() implies (
                        #[trigger] t.events[i]).dag_id < 1 by {
                            if i < before.events.len() {
                                assert(before.events[i].dag_id < 1);
                            }
                        }
                    } else {
                        assert(t.runs == before.runs);
                        assert forall|v: int| 0 <= v < r.states.len() implies is_finishing(
                            self.cores,
                            v,
                            upto,
                        ) == is_finishing(self.cores, v, upto - 1) by {
                            if is_finishing(self.cores, v, upto) {
                                let c = choose|c: int|
                                    0 <= c < upto && !(#[trigger] self.cores[c]).is_idle()
                                        && self.cores[c].remain_proc_time <= 1 && node_of(
                                        self.cores[c].processing_node->0,
                                    ) == v;
                                assert(c < upto - 1);
                            }
                        }
                    }
                },
            }
        } else {
            assert forall|i: int| 0 <= i < self.events.len() implies (#[trigger] self.events[i]).dag_id
                < 1 by {}
        }
    }
}

impl RunView {
    /// A node that is not ready though it waits for its predecessors has an
    /// edge into it whose source is not done or whose data has not arrived.
    pub proof fn lemma_failing_edge(self, v: int, time: int, upto: int) -> (e: int)
        requires
            0 <= upto <= self.dag.edges@.len(),
            !self.ready_upto(v, time, upto),
        ensures
            0 <= e < upto,
            self.dag.edges@[e].target == v,
            !(self.states[self.dag.edges@[e].source as int] == NodeState::Finished
                && self.finish_times[self.dag.edges@[e].source as int]
                + self.dag.edges@[e].communication_time <= time),
        decreases upto,
    {
        if self.ready_upto(v, time, upto - 1) {
            upto - 1
        } else {
            self.lemma_failing_edge(v, time, upto - 1)
        }
    }

    /// The first node of `order`, from `from` on, that is not done.
    pub proof fn lemma_first_not_done(self, order: Seq<usize>, from: int) -> (k: int)
        requires
            0 <= from <= order.len(),
            exists|j: int|
                from <= j < order.len() && self.states[(#[trigger] order[j]) as int]
                    != NodeState::Finished,
        ensures
            from <= k < order.len(),
            self.states[order[k] as int] != NodeState::Finished,
            forall|j: int|
                from <= j < k ==> self.states[(#[trigger] order[j]) as int] == NodeState::Finished,
        decreases order.len() - from,
    {
        if self.states[order[from] as int] != NodeState::Finished {
            from
        } else {
            let j = choose|j: int|
                from <= j < order.len() && self.states[(#[trigger] order[j]) as int]
                    != NodeState::Finished;
            assert(j != from);
            self.lemma_first_not_done(order, from + 1)
        }
    }
}

impl EngineView {
    /// Whether no node that still waits for its predecessors is ready.
    pub open spec fn none_ready(self) -> bool {
        forall|v: int|
            0 <= v < self.runs[0].states.len() && (#[trigger] self.runs[0].states[v])
                == NodeState::Idle ==> !self.runs[0].is_ready(v, self.time as int)
    }

    /// Whether nodes wait in the ready queue only while no core is idle.
    pub open spec fn none_waits_idly(self) -> bool {
        self.queue.len() > 0 ==> forall|c: int|
            0 <= c < self.cores.len() ==> !(#[trigger] self.cores[c]).is_idle()
    }

    /// Once the cores are allocated, while the task is under way, a core
    /// is busy or the data of a node that is done is under way.
    pub proof fn lemma_something_moves(self)
        requires
            self.is_steady(),
            self.runs[0].active,
            self.none_ready(),
            self.none_waits_idly(),
        ensures
            (exists|c: int| 0 <= c < self.cores.len() && !(#[trigger] self.cores[c]).is_idle()) || (
            exists|e: int|
                0 <= e < self.runs[0].dag.edges@.len() && self.runs[0].states[(
                #[trigger] self.runs[0].dag.edges@[e]).source as int] == NodeState::Finished
                    && self.runs[0].pend(e, self.time as int) >= 1),
    {
        let r = self.runs[0];
        let n = r.states.len() as int;
        let m = r.dag.edges@.len() as int;
        assert(r.wf(0));
        if !(exists|c: int| 0 <= c < self.cores.len() && !(#[trigger] self.cores[c]).is_idle()) {
            assert(self.cores[0].is_idle());
            assert(self.queue.len() == 0);
            let order = choose|order: Seq<usize>| is_topological_order(order, n, r.dag.edges@);
            let u = choose|u: int| 0 <= u < n && (#[trigger] r.states[u]) != NodeState::Finished;
            assert(r.dag.nodes@.len() == r.dag.nodes.len());
            assert(order.contains(u as usize));
            let ju = choose|j: int| 0 <= j < order.len() && order[j] == u as usize;
            assert(r.states[order[ju] as int] != NodeState::Finished);
            let k = r.lemma_first_not_done(order, 0);
            let v = order[k] as int;
            assert(r.states[v] == NodeState::Idle) by {
                if r.states[v] == NodeState::Ready || r.states[v] == NodeState::Preempted {
                    assert(is_queued(self.queue, v));
                }
                if r.states[v] == NodeState::Running {
                    assert(is_on_core(self.cores, v));
                }
            }
            assert(!r.is_ready(v, self.time as int));
            let e = r.lemma_failing_edge(v, self.time as int, m);
            let src = r.dag.edges@[e].source;
            assert(order.contains(src));
            let j = choose|j: int| 0 <= j < order.len() && order[j] == src;
            let _ = (r.dag.edges@[e], order[j], order[k]);
            assert(j < k);
            assert(r.states[order[j] as int] == NodeState::Finished);
            assert(r.pend(e, self.time as int) >= 1);
        }
    }

    /// While the task is under way, something is left to do.
    pub proof fn lemma_active_has_work(self)
        requires
            self.is_steady(),
            self.runs[0].active,
        ensures
            self.work_left() >= 1,
    {
        let r = self.runs[0];
        let n = r.states.len() as int;
        assert(r.wf(0));
        lemma_cores_work_bounds(self.cores, self.cores.len() as int);
        assert forall|i: int| 0 <= i < self.queue.len() implies can_run(#[trigger] self.queue[i]) by {
            assert(is_job_node(self.runs, self.queue[i]));
        }
        lemma_queue_work_bounds(self.queue);
        r.lemma_idle_work_bounds(n);
        r.lemma_pending_bounds(self.time as int, r.dag.edges@.len() as int);
        let v = choose|v: int| 0 <= v < n && (#[trigger] r.states[v]) != NodeState::Finished;
        if r.states[v] == NodeState::Idle {
            assert(can_run(r.dag.nodes@[v]));
        } else if r.states[v] == NodeState::Running {
            let c = choose|c: int|
                0 <= c < self.cores.len() && !(#[trigger] self.cores[c]).is_idle() && node_of(
                    self.cores[c].processing_node->0,
                ) == v;
            assert(self.cores[c].wf());
            assert(cores_work(self.cores, self.cores.len() as int) >= core_ticks(self.cores[c]));
        } else {
            assert(is_queued(self.queue, v));
            let i = choose|i: int| 0 <= i < self.queue.len() && node_of(#[trigger] self.queue[i]) == v;
            assert(can_run(self.queue[i]));
            assert(queue_work(self.queue) >= ticks_of(self.queue[i]));
        }
    }

    /// The allocation of cores, as a whole.
    pub proof fn lemma_allocated(self)
        requires
            self.is_steady(),
        ensures
            self.allocated().is_steady(),
            self.allocated().work_left() == self.work_left(),
            self.allocated().time == self.time,
            self.allocated().horizon == self.horizon,
            self.allocated().runs[0].active == self.runs[0].active,
            same_done(self.allocated().runs[0], self.runs[0]),
            forall|v: int|
                0 <= v < self.runs[0].states.len() ==> ((#[trigger] self.allocated().runs[0].states[v])
                    == NodeState::Idle) == (self.runs[0].states[v] == NodeState::Idle),
            self.allocated().none_waits_idly(),
    {
        let len = self.queue.len() as int;
        self.lemma_allocate_upto(len);
        let p = self.allocate_upto(len);
        assert(self.queue.subrange(len, len) =~= Seq::<NodeData>::empty());
        assert(p.view.queue + self.queue.subrange(len, len) =~= p.view.queue);
        assert(p.view.queue + p.evicted =~= p.view.queue);
        let whole = EngineView { queue: p.view.queue + self.queue.subrange(len, len), ..p.view };
        assert(self.allocated() == whole);
    }

    /// Running the cores for a tick keeps the engine steady, takes nothing
    /// but work off what is left to do, and takes something off it where a
    /// core is busy or the data of a node that is done is under way.
    pub proof fn lemma_processed(self)
        requires
            self.is_steady(),
            self.time < self.horizon,
        ensures
            self.processed().is_steady(),
            self.processed().time == self.time + 1,
            self.processed().horizon == self.horizon,
            self.runs[0].active && !self.processed().runs[0].active ==> exists|v: int|
                0 <= v < self.processed().runs[0].finish_times.len() && (
                #[trigger] self.processed().runs[0].finish_times[v]) == self.time + 1,
            self.processed().work_left() <= self.work_left(),
            (exists|c: int| 0 <= c < self.cores.len() && !(#[trigger] self.cores[c]).is_idle())
                ==> self.processed().work_left() <= self.work_left() - 1,
            (exists|e: int|
                0 <= e < self.runs[0].dag.edges@.len() && self.runs[0].states[(
                #[trigger] self.runs[0].dag.edges@[e]).source as int] == NodeState::Finished
                    && self.runs[0].pend(e, self.time as int) >= 1) ==> self.processed().work_left()
                <= self.work_left() - 1,
    {
        let count = self.cores.len() as int;
        self.lemma_process_upto(count);
        let t = self.with_cores_ticked().process_upto(self.cores, count);
        let d = self.processed();
        assert(d == EngineView { time: (self.time + 1) as i32, ..t });
        let r = self.runs[0];
        let q = d.runs[0];
        let n = r.states.len() as int;
        let m = r.dag.edges@.len() as int;
        assert(r.wf(0));
        assert(q == t.runs[0]);
        assert forall|v: int| 0 <= v < n && is_finishing(self.cores, v, count) implies r.states[v]
            == NodeState::Running by {
            let c = choose|c: int|
                0 <= c < count && !(#[trigger] self.cores[c]).is_idle()
                    && self.cores[c].remain_proc_time <= 1 && node_of(
                    self.cores[c].processing_node->0,
                ) == v;
            assert(r.states[node_of(self.cores[c].processing_node->0)] == NodeState::Running);
        }
        assert forall|c: int| 0 <= c < d.cores.len() implies (#[trigger] d.cores[c]).wf() && (
        !d.cores[c].is_idle() ==> !self.cores[c].is_idle() && self.cores[c].remain_proc_time > 1
            && d.cores[c].processing_node == self.cores[c].processing_node) by {
            assert(self.cores[c].wf());
            assert(d.cores[c] == self.cores[c].ticked());
        }
        assert(q.wf(0)) by {
            assert forall|v: int| 0 <= v < q.finish_times.len() implies (
            #[trigger] q.finish_times[v]) >= 0 by {
                assert(r.finish_times[v] >= 0);
            }
            assert forall|i: int| 0 <= i < q.release_times.len() implies (
            #[trigger] q.release_times[i]) >= 0 by {
                assert(r.release_times[i] >= 0);
            }
            assert forall|v: int| 0 <= v < q.node_count() implies {
                let nd = #[trigger] q.dag.nodes@[v];
                nd.id >= 0 && can_run(nd)
            } by {
                assert(r.dag.nodes@[v].id >= 0);
            }
        }
        assert forall|v: int| 0 <= v < q.finish_times.len() implies (#[trigger] q.finish_times[v])
            <= d.time by {
            assert(r.finish_times[v] <= self.time);
        }
        assert forall|x: NodeData| is_job_node(self.runs, x) implies is_job_node(d.runs, x) by {}
        assert forall|c: int|
            0 <= c < d.cores.len() && !(#[trigger] d.cores[c]).is_idle() implies is_job_node(
            d.runs,
            d.cores[c].processing_node->0,
        ) && q.states[node_of(d.cores[c].processing_node->0)] == NodeState::Running by {
            let y = self.cores[c].processing_node->0;
            assert(is_job_node(self.runs, y));
            assert(r.states[node_of(y)] == NodeState::Running);
            if is_finishing(self.cores, node_of(y), count) {
                let k = choose|k: int|
                    0 <= k < count && !(#[trigger] self.cores[k]).is_idle()
                        && self.cores[k].remain_proc_time <= 1 && node_of(
                        self.cores[k].processing_node->0,
                    ) == node_of(y);
                assert(k != c);
                if k < c {
                    assert(node_of(self.cores[k].processing_node->0) != node_of(
                        self.cores[c].processing_node->0,
                    ));
                } else {
                    assert(node_of(self.cores[c].processing_node->0) != node_of(
                        self.cores[k].processing_node->0,
                    ));
                }
            }
        }
        assert forall|i: int| 0 <= i < d.queue.len() implies is_job_node(
            d.runs,
            #[trigger] d.queue[i],
        ) && (q.states[node_of(d.queue[i])] == NodeState::Ready || q.states[node_of(d.queue[i])]
            == NodeState::Preempted) by {
            assert(is_job_node(self.runs, self.queue[i]));
            assert(r.states[node_of(self.queue[i])] == NodeState::Ready || r.states[node_of(
                self.queue[i],
            )] == NodeState::Preempted);
        }
        assert forall|i: int| 0 <= i < d.events.len() implies (#[trigger] d.events[i]).dag_id
            < d.runs.len() by {
            assert(t.events[i].dag_id < 1);
        }
        assert forall|j: int| 0 <= j < d.runs.len() implies (#[trigger] d.runs[j]).wf(j) by {}
        assert(d.wf());
        assert forall|v: int|
            0 <= v < q.states.len() && ((#[trigger] q.states[v]) == NodeState::Ready || q.states[v]
                == NodeState::Preempted) implies is_queued(d.queue, v) by {
            assert(r.states[v] == q.states[v]);
        }
        assert forall|v: int|
            0 <= v < q.states.len() && (#[trigger] q.states[v])
                == NodeState::Running implies is_on_core(d.cores, v) by {
            assert(r.states[v] == NodeState::Running);
            assert(!is_finishing(self.cores, v, count));
            let c = choose|c: int|
                0 <= c < self.cores.len() && !(#[trigger] self.cores[c]).is_idle() && node_of(
                    self.cores[c].processing_node->0,
                ) == v;
            assert(self.cores[c].wf());
            assert(self.cores[c].remain_proc_time > 1);
            assert(d.cores[c] == self.cores[c].ticked());
            assert(!d.cores[c].is_idle() && node_of(d.cores[c].processing_node->0) == v);
        }
        assert forall|c: int, k: int|
            0 <= c < k < d.cores.len() && !(#[trigger] d.cores[c]).is_idle() && !(
            #[trigger] d.cores[k]).is_idle() implies node_of(d.cores[c].processing_node->0)
            != node_of(d.cores[k].processing_node->0) by {
            assert(!self.cores[c].is_idle() && !self.cores[k].is_idle());
        }
        assert(d.is_steady());
        if r.active && !q.active {
            let v = choose|v: int| 0 <= v < n && #[trigger] is_finishing(self.cores, v, count);
            assert(q.finish_times[v] == self.time + 1);
        }
        lemma_cores_work_ticked(self.cores, count);
        assert forall|v: int| 0 <= v < n implies ((#[trigger] q.states[v]) == NodeState::Idle) == (
        r.states[v] == NodeState::Idle) by {}
        lemma_idle_work_same(q, r, n);
        assert forall|v: int|
            0 <= v < n && (#[trigger] r.states[v]) == NodeState::Finished implies q.states[v]
            == NodeState::Finished && q.finish_times[v] == r.finish_times[v] by {}
        assert forall|v: int|
            0 <= v < n && (#[trigger] r.states[v]) != NodeState::Finished && q.states[v]
                == NodeState::Finished implies q.finish_times[v] == self.time + 1 by {}
        r.lemma_pending_after(q, self.time as int, m);
    }

    /// One tick of a steady engine whose task is under way keeps it
    /// steady and takes something off what is left to do.
    pub proof fn lemma_tick_takes_work(self)
        requires
            self.is_steady(),
            self.runs[0].active,
            self.time < self.horizon,
        ensures
            self.ticked().is_steady(),
            self.ticked().time == self.time + 1,
            self.ticked().horizon == self.horizon,
            self.ticked().work_left() <= self.work_left() - 1,
            !self.ticked().runs[0].active ==> exists|v: int|
                0 <= v < self.ticked().runs[0].finish_times.len() && (
                #[trigger] self.ticked().runs[0].finish_times[v]) == self.time + 1,
    {
        let r = self.runs[0];
        assert(self.released().runs =~= self.runs);
        assert(self.released() == self);
        self.lemma_admitted();
        let n = r.states.len() as int;
        self.lemma_admit_run(n);
        let a = self.admitted();
        assert(a.runs[0].wf(0));
        assert(a.none_ready()) by {
            assert forall|v: int|
                0 <= v < a.runs[0].states.len() && (#[trigger] a.runs[0].states[v])
                    == NodeState::Idle implies !a.runs[0].is_ready(v, a.time as int) by {
                lemma_ready_same(a.runs[0], r, v, a.time as int, r.dag.edges@.len() as int);
            }
        }
        a.lemma_sorted();
        let b = a.sorted();
        b.lemma_allocated();
        let c = b.allocated();
        assert(c.runs[0].wf(0));
        assert(c.none_ready()) by {
            assert forall|v: int|
                0 <= v < c.runs[0].states.len() && (#[trigger] c.runs[0].states[v])
                    == NodeState::Idle implies !c.runs[0].is_ready(v, c.time as int) by {
                assert(b.runs[0].states[v] == NodeState::Idle);
                lemma_ready_same(c.runs[0], b.runs[0], v, c.time as int, r.dag.edges@.len() as int);
            }
        }
        c.lemma_something_moves();
        c.lemma_processed();
    }
}

impl RunView {
    /// While every node waits for its predecessors, the work that waits is
    /// the volume of the task.
    pub proof fn lemma_idle_work_all(self, upto: int)
        requires
            0 <= upto <= self.states.len(),
            forall|v: int| 0 <= v < self.states.len() ==> (#[trigger] self.states[v]) == NodeState::Idle,
        ensures
            self.idle_work(upto) == self.dag.ticks_upto(upto),
        decreases upto,
    {
        if upto > 0 {
            self.lemma_idle_work_all(upto - 1);
            assert(self.states[upto - 1] == NodeState::Idle);
        }
    }

    /// While no node is done, all communication is still to come.
    pub proof fn lemma_pending_all(self, time: int, upto: int)
        requires
            self.wf(0),
            0 <= upto <= self.dag.edges@.len(),
            forall|v: int|
                0 <= v < self.states.len() ==> (#[trigger] self.states[v]) != NodeState::Finished,
        ensures
            self.pending(time, upto) == self.dag.comm_upto(upto),
        decreases upto,
    {
        if upto > 0 {
            self.lemma_pending_all(time, upto - 1);
            let edge = self.dag.edges@[upto - 1];
            assert(edge.source < self.states.len());
            assert(self.states[edge.source as int] != NodeState::Finished);
        }
    }
}

/// Idle cores have no work before them.
pub proof fn lemma_cores_work_idle(cores: Seq<Core>, upto: int)
    requires
        0 <= upto <= cores.len(),
        forall|c: int| 0 <= c < cores.len() ==> (#[trigger] cores[c]) == Core::idle(),
    ensures
        cores_work(cores, upto) == 0,
    decreases upto,
{
    if upto > 0 {
        lemma_cores_work_idle(cores, upto - 1);
        assert(cores[upto - 1] == Core::idle());
    }
}

impl EngineView {
    /// Whether the engine is about to run one acyclic task for the first
    /// time: at time 0, on idle shared cores of which there is one at least,
    /// without displacement, with the task due now and never again, and a
    /// horizon no lower than the bound on the run of the task.
    pub open spec fn is_fresh(self) -> bool {
        let r = self.runs[0];
        &&& self.wf()
        &&& self.runs.len() == 1
        &&& self.cores.len() <= usize::MAX
        &&& self.cores.len() >= 1 || r.node_count() == 0
        &&& !r.heavy
        &&& forall|c: int| 0 <= c < self.owners.len() ==> (#[trigger] self.owners[c]) is None
        &&& forall|c: int| 0 <= c < self.cores.len() ==> (#[trigger] self.cores[c]) == Core::idle()
        &&& self.policy == PreemptiveType::NonPreemptive
        &&& r.period is None
        &&& r.next_release == Some(0i32)
        &&& r.job_id == 0
        &&& r.backlog == 0
        &&& !r.active
        &&& r.dag.is_acyclic()
        &&& self.time == 0
        &&& self.queue.len() == 0
        &&& self.horizon >= r.dag.run_bound()
        &&& forall|v: int| 0 <= v < r.finish_times.len() ==> (#[trigger] r.finish_times[v]) <= 0
    }

    /// The release of the task makes a fresh engine steady, with all the
    /// work of the task left to do.
    pub proof fn lemma_first_release(self)
        requires
            self.is_fresh(),
            self.runs[0].node_count() > 0,
        ensures
            self.released().is_steady(),
            self.released().runs[0].active,
            self.released().time == 0,
            self.released().horizon == self.horizon,
            self.released().work_left() == self.runs[0].dag.run_bound() - 1,
            self.released().ticked() == self.ticked(),
            self.runs[0].dag.run_bound() >= 2,
    {
        let r = self.runs[0];
        let x = self.released();
        let q = x.runs[0];
        let n = r.states.len() as int;
        assert(r.wf(0));
        assert(q == r.released(self.time, self.horizon));
        assert(q.states[0] == NodeState::Idle);
        assert(q.wf(0)) by {
            assert forall|v: int| 0 <= v < q.node_count() implies {
                let nd = #[trigger] q.dag.nodes@[v];
                nd.id >= 0 && can_run(nd)
            } by {
                assert(r.dag.nodes@[v].id >= 0);
            }
            assert forall|i: int| 0 <= i < q.release_times.len() implies (
            #[trigger] q.release_times[i]) >= 0 by {
                if i < r.release_times.len() {
                    assert(r.release_times[i] >= 0);
                }
            }
            assert forall|v: int| 0 <= v < q.finish_times.len() implies (
            #[trigger] q.finish_times[v]) >= 0 by {
                assert(r.finish_times[v] >= 0);
            }
            assert forall|i: int| 0 <= i < q.finish_log.len() implies (#[trigger] q.finish_log[i])
                >= 0 by {
                assert(r.finish_log[i] >= 0);
            }
        }
        assert forall|d: int| 0 <= d < x.runs.len() implies (#[trigger] x.runs[d]).wf(d) by {}
        assert forall|c: int| 0 <= c < x.cores.len() implies (#[trigger] x.cores[c]).wf()
            && x.cores[c].is_idle() by {
            assert(self.cores[c] == Core::idle());
        }
        assert forall|i: int| 0 <= i < x.events.len() implies (#[trigger] x.events[i]).dag_id
            < x.runs.len() by {
            assert(self.events[i].dag_id < self.runs.len());
        }
        assert(x.wf());
        assert(!q.is_complete());
        assert(x.is_steady());
        assert(x.released().runs =~= x.runs);
        assert(x.released() == x);
        lemma_cores_work_idle(x.cores, x.cores.len() as int);
        q.lemma_idle_work_all(n);
        q.lemma_pending_all(0, q.dag.edges@.len() as int);
        q.dag.lemma_comm_monotone(0, q.dag.edges@.len() as int);
        q.dag.lemma_ticks_monotone(1, n);
        assert(can_run(q.dag.nodes@[0]));
        assert(q.dag.ticks_upto(1) == q.dag.ticks_upto(0) + ticks_of(q.dag.nodes@[0]));
    }

    /// While the task is under way, the run of a fresh engine is steady
    /// and every tick takes something off what is left to do.
    pub proof fn lemma_run_takes_work(self, k: nat)
        requires
            self.is_fresh(),
            self.runs[0].node_count() > 0,
            1 <= k <= self.horizon,
            forall|j: nat| 1 <= j < k ==> (#[trigger] self.after_ticks(j)).runs[0].active,
        ensures
            self.after_ticks(k).is_steady(),
            self.after_ticks(k).time == k,
            self.after_ticks(k).horizon == self.horizon,
            self.after_ticks(k).work_left() <= self.runs[0].dag.run_bound() - 1 - k,
            !self.after_ticks(k).runs[0].active ==> exists|v: int|
                0 <= v < self.after_ticks(k).runs[0].finish_times.len() && (
                #[trigger] self.after_ticks(k).runs[0].finish_times[v]) == k,
        decreases k,
    {
        self.lemma_first_release();
        if k == 1 {
            assert(self.after_ticks(0) == self);
            assert(self.after_ticks(1) == self.ticked());
            self.released().lemma_tick_takes_work();
        } else {
            self.lemma_run_takes_work((k - 1) as nat);
            let before = self.after_ticks((k - 1) as nat);
            assert(before.runs[0].active);
            before.lemma_tick_takes_work();
        }
    }

    /// The run of one acyclic task on a fresh engine ends before the
    /// horizon: after some tick the task has no instance under way.
    pub proof fn lemma_run_ends(self) -> (k: nat)
        requires
            self.is_fresh(),
            self.runs[0].node_count() > 0,
        ensures
            1 <= k < self.horizon,
            !self.after_ticks(k).runs[0].active,
    {
        self.lemma_first_release();
        let last = (self.runs[0].dag.run_bound() - 1) as nat;
        if forall|j: nat| 1 <= j <= last ==> (#[trigger] self.after_ticks(j)).runs[0].active {
            self.lemma_run_takes_work(last);
            assert(self.after_ticks(last).runs[0].active);
            self.after_ticks(last).lemma_active_has_work();
            1
        } else {
            let j = choose|j: nat| 1 <= j <= last && !(#[trigger] self.after_ticks(j)).runs[0].active;
            j
        }
    }

    /// The length of the run of one task on a fresh engine is the latest
    /// finish time of its nodes: where the task is under way after every
    /// tick before the `k`-th and not after that one, no node finished later
    /// than `k`, and one finished then.
    pub proof fn lemma_run_length_is_latest_finish(self, k: nat)
        requires
            self.is_fresh(),
            self.runs[0].node_count() > 0,
            1 <= k <= self.horizon,
            forall|j: nat| 1 <= j < k ==> (#[trigger] self.after_ticks(j)).runs[0].active,
            !self.after_ticks(k).runs[0].active,
        ensures
            forall|v: int|
                0 <= v < self.after_ticks(k).runs[0].finish_times.len() ==> (
                #[trigger] self.after_ticks(k).runs[0].finish_times[v]) <= k,
            exists|v: int|
                0 <= v < self.after_ticks(k).runs[0].finish_times.len() && (
                #[trigger] self.after_ticks(k).runs[0].finish_times[v]) == k,
    {
        self.lemma_run_takes_work(k);
    }
}

} // verus!
