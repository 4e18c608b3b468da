//! The scheduling engine: the state of a run and the five phases of a tick.

use crate::engine_model::{
    dag_of, inserted, is_job_node, node_of, priority_of, sorted_by_priority, EngineView,
    NodeState, PassView, PreemptiveType, RunView,
};
use crate::graph_extension::{Dag, NodeData};
use crate::log::{CoreLog, JobEventTimes, JobLog};
use crate::processor::{can_run, Core, HomogeneousProcessor, ProcessResult};
use std::collections::VecDeque;
use vstd::prelude::*;

verus! {

/// One task in a run: its graph, when it is released, and where every
/// node of its current instance stands.
#[derive(Debug)]
pub struct DagRun {
    pub dag: Dag,
    pub heavy: bool,
    pub period: Option<i32>,
    pub next_release: Option<i32>,
    pub active: bool,
    pub job_id: usize,
    pub backlog: usize,
    pub states: Vec<NodeState>,
    pub finish_times: Vec<i32>,
    pub release_times: Vec<i32>,
    pub finish_log: Vec<i32>,
}

impl View for DagRun {
    type V = RunView;

    open spec fn view(&self) -> RunView {
        RunView {
            dag: self.dag,
            heavy: self.heavy,
            period: self.period,
            next_release: self.next_release,
            active: self.active,
            job_id: self.job_id,
            backlog: self.backlog,
            states: self.states@,
            finish_times: self.finish_times@,
            release_times: self.release_times@,
            finish_log: self.finish_log@,
        }
    }
}

/// The state of a run: the tasks, the processor and who owns its cores,
/// the clock, the ready queue, and what has been recorded so far.
#[derive(Debug)]
pub struct SchedulerEngine {
    pub runs: Vec<DagRun>,
    pub processor: HomogeneousProcessor,
    pub owners: Vec<Option<usize>>,
    pub policy: PreemptiveType,
    pub horizon: i32,
    pub current_time: i32,
    pub ready_queue: VecDeque<NodeData>,
    pub execution_order: Vec<(usize, usize)>,
    pub events: Vec<JobLog>,
    pub busy: Vec<CoreLog>,
    pub degraded: Vec<(usize, usize)>,
}

impl View for SchedulerEngine {
    type V = EngineView;

    open spec fn view(&self) -> EngineView {
        EngineView {
            runs: self.runs@.map_values(|r: DagRun| r@),
            cores: self.processor.cores@,
            owners: self.owners@,
            policy: self.policy,
            horizon: self.horizon,
            time: self.current_time,
            queue: self.ready_queue@,
            order: self.execution_order@,
            events: self.events@,
            busy: self.busy@,
            degraded: self.degraded@,
        }
    }
}

/// The priority by which `node` is ordered.
pub fn get_priority(node: &NodeData) -> (priority: i32)
    ensures
        priority == priority_of(*node),
{
    match node.priority {
        Some(p) => p,
        None => i32::MAX,
    }
}

/// Where `x` comes to stand in `queue`: behind the nodes before `at`, where
/// every node from `at` on is less urgent than `x` and the node before `at`,
/// if any, is not.
pub proof fn lemma_inserted_at(queue: Seq<NodeData>, x: NodeData, at: int)
    requires
        0 <= at <= queue.len(),
        forall|i: int| at <= i < queue.len() ==> priority_of(#[trigger] queue[i]) > priority_of(x),
        at > 0 ==> priority_of(queue[at - 1]) <= priority_of(x),
    ensures
        inserted(queue, x) == queue.insert(at, x),
    decreases queue.len() - at,
{
    if queue.len() == 0 {
        assert(queue.insert(at, x) =~= seq![x]);
    } else if at == queue.len() {
        assert(queue.insert(at, x) =~= queue.push(x));
    } else {
        lemma_inserted_at(queue.drop_last(), x, at);
        assert(queue.drop_last().insert(at, x).push(queue.last()) =~= queue.insert(at, x));
    }
}

/// Ordering a queue keeps its length, and every node of the result is a
/// node of the queue.
pub proof fn lemma_sorted_members(queue: Seq<NodeData>)
    ensures
        sorted_by_priority(queue).len() == queue.len(),
        forall|i: int|
            0 <= i < queue.len() ==> queue.contains(#[trigger] sorted_by_priority(queue)[i]),
    decreases queue.len(),
{
    if queue.len() > 0 {
        let head = sorted_by_priority(queue.drop_last());
        lemma_sorted_members(queue.drop_last());
        lemma_inserted_members(head, queue.last());
        assert forall|i: int| 0 <= i < queue.len() implies queue.contains(
            #[trigger] sorted_by_priority(queue)[i],
        ) by {
            let y = sorted_by_priority(queue)[i];
            if y == queue.last() {
                assert(queue[queue.len() - 1] == y);
            } else {
                assert(head.contains(y));
                let j = choose|j: int| 0 <= j < head.len() && head[j] == y;
                assert(queue.drop_last().contains(head[j]));
                let k = choose|k: int| 0 <= k < queue.drop_last().len() && queue.drop_last()[k] == y;
                assert(queue[k] == y);
            }
        }
    }
}

/// Inserting a node adds that node and no other.
pub proof fn lemma_inserted_members(queue: Seq<NodeData>, x: NodeData)
    ensures
        inserted(queue, x).len() == queue.len() + 1,
        forall|i: int|
            0 <= i < queue.len() + 1 ==> (#[trigger] inserted(queue, x)[i]) == x || queue.contains(
                inserted(queue, x)[i],
            ),
    decreases queue.len(),
{
    if queue.len() > 0 && priority_of(queue.last()) > priority_of(x) {
        lemma_inserted_members(queue.drop_last(), x);
        assert forall|i: int| 0 <= i < queue.len() + 1 implies (#[trigger] inserted(queue, x)[i])
            == x || queue.contains(inserted(queue, x)[i]) by {
            let y = inserted(queue, x)[i];
            if i == queue.len() {
                assert(queue[queue.len() - 1] == y);
            } else if y != x {
                assert(queue.drop_last().contains(y));
                let k = choose|k: int| 0 <= k < queue.drop_last().len() && queue.drop_last()[k] == y;
                assert(queue[k] == y);
            }
        }
    } else {
        assert forall|i: int| 0 <= i < queue.len() + 1 implies (#[trigger] inserted(queue, x)[i])
            == x || queue.contains(inserted(queue, x)[i]) by {
            if i < queue.len() {
                assert(queue[i] == inserted(queue, x)[i]);
            }
        }
    }
}

/// Puts the ready queue in ascending order of priority value. Nodes of
/// equal priority keep the order in which they entered; a node without a
/// priority counts as the least urgent.
pub fn sort_ready_queue(ready_queue: &mut VecDeque<NodeData>)
    ensures
        final(ready_queue)@ == sorted_by_priority(old(ready_queue)@),
{
    let mut sorted: VecDeque<NodeData> = VecDeque::new();
    let mut i: usize = 0;
    while i < ready_queue.len()
        invariant
            ready_queue@ == old(ready_queue)@,
            i <= ready_queue@.len(),
            sorted@ == sorted_by_priority(ready_queue@.subrange(0, i as int)),
            sorted@.len() == i,
        decreases ready_queue@.len() - i,
    {
        let x = ready_queue[i];
        let priority = get_priority(&x);
        let mut at: usize = sorted.len();
        while at > 0 && get_priority(&sorted[at - 1]) > priority
            invariant
                at <= sorted@.len(),
                priority == priority_of(x),
                forall|j: int|
                    at <= j < sorted@.len() ==> priority_of(#[trigger] sorted@[j]) > priority_of(x),
            decreases at,
        {
            at -= 1;
        }
        proof {
            lemma_inserted_at(sorted@, x, at as int);
            assert(ready_queue@.subrange(0, i + 1).drop_last() =~= ready_queue@.subrange(
                0,
                i as int,
            ));
            assert(ready_queue@.subrange(0, i + 1).last() == x);
        }
        sorted.insert(at, x);
        i += 1;
    }
    assert(ready_queue@.subrange(0, ready_queue@.len() as int) =~= ready_queue@);
    *ready_queue = sorted;
}

impl DagRun {
    /// Whether node `v` may enter the ready queue at `time`.
    pub fn is_ready(&self, v: usize, time: i32) -> (ready: bool)
        requires
            self.dag.wf(),
            self.states@.len() == self.dag.nodes@.len(),
            self.finish_times@.len() == self.dag.nodes@.len(),
            v < self.states@.len(),
        ensures
            ready == self@.is_ready(v as int, time as int),
    {
        match self.states[v] {
            NodeState::Idle => {},
            _ => {
                return false;
            },
        }
        let m = self.dag.edges.len();
        let mut e: usize = 0;
        while e < m
            invariant
                self.dag.wf(),
                self.states@.len() == self.dag.nodes@.len(),
                self.finish_times@.len() == self.dag.nodes@.len(),
                m == self.dag.edges@.len(),
                e <= m,
                self@.ready_upto(v as int, time as int, e as int),
            decreases m - e,
        {
            let edge = self.dag.edges[e];
            if edge.target == v {
                let done = match self.states[edge.source] {
                    NodeState::Finished => true,
                    _ => false,
                };
                if !done || self.finish_times[edge.source] as i64 + edge.communication_time as i64
                    > time as i64 {
                    proof {
                        self@.lemma_not_ready(v as int, time as int, e as int + 1, m as int);
                    }
                    return false;
                }
            }
            e += 1;
        }
        true
    }

    /// Whether every node of the instance is done.
    pub fn is_complete(&self) -> (complete: bool)
        ensures
            complete == self@.is_complete(),
    {
        let mut v: usize = 0;
        while v < self.states.len()
            invariant
                v <= self.states@.len(),
                forall|u: int| 0 <= u < v ==> (#[trigger] self.states@[u]) == NodeState::Finished,
            decreases self.states@.len() - v,
        {
            match self.states[v] {
                NodeState::Finished => {},
                _ => {
                    return false;
                },
            }
            v += 1;
        }
        true
    }

    /// The release phase for one graph at `time`.
    pub fn release(&mut self, time: i32, horizon: i32)
        requires
            0 <= time <= horizon,
        ensures
            final(self)@ == old(self)@.released(time, horizon),
    {
        let due = match self.next_release {
            Some(t) => t == time,
            None => false,
        };
        if due {
            let next = match self.period {
                Some(p) => {
                    if p > 0 && (time as i64) + (p as i64) < horizon as i64 {
                        Some(time + p)
                    } else {
                        None
                    }
                },
                None => None,
            };
            self.next_release = next;
            self.release_times.push(time);
            if self.backlog < usize::MAX {
                self.backlog = self.backlog + 1;
            }
        }
        if !self.active && self.backlog > 0 && self.job_id < usize::MAX {
            let n = self.states.len();
            let mut states: Vec<NodeState> = Vec::new();
            let mut v: usize = 0;
            while v < n
                invariant
                    v <= n,
                    states@ == Seq::new(v as nat, |u: int| NodeState::Idle),
                decreases n - v,
            {
                states.push(NodeState::Idle);
                assert(states@ =~= Seq::new((v + 1) as nat, |u: int| NodeState::Idle));
                v += 1;
            }
            self.states = states;
            self.job_id = self.job_id + 1;
            self.backlog = self.backlog - 1;
            if self.dag.nodes.len() > 0 {
                self.active = true;
            } else {
                self.active = false;
                self.finish_log.push(time);
            }
        }
    }
}

impl RunView {
    /// A node that fails the test at one edge is not ready.
    pub proof fn lemma_not_ready(self, v: int, time: int, failed: int, upto: int)
        requires
            0 < failed <= upto,
            !self.ready_upto(v, time, failed),
        ensures
            !self.ready_upto(v, time, upto),
        decreases upto,
    {
        if failed < upto {
            self.lemma_not_ready(v, time, failed, upto - 1);
        }
    }
}

impl SchedulerEngine {
    /// Phase one of a tick: every task that is due is released.
    pub fn release(&mut self)
        requires
            old(self)@.wf(),
        ensures
            final(self)@ == old(self)@.released(),
            final(self)@.wf(),
            final(self).runs@.len() == old(self).runs@.len(),
    {
        let time = self.current_time;
        let horizon = self.horizon;
        let mut d: usize = 0;
        while d < self.runs.len()
            invariant
                old(self)@.wf(),
                time == old(self).current_time,
                horizon == old(self).horizon,
                d <= self.runs@.len(),
                self.runs@.len() == old(self).runs@.len(),
                self@ == (EngineView { runs: self@.runs, ..old(self)@ }),
                forall|j: int|
                    0 <= j < d ==> (#[trigger] self.runs@[j])@ == old(self).runs@[j]@.released(
                        time,
                        horizon,
                    ),
                forall|j: int| d <= j < self.runs@.len() ==> self.runs@[j] == old(self).runs@[j],
            decreases self.runs@.len() - d,
        {
            self.runs[d].release(time, horizon);
            d += 1;
        }
        proof {
            assert(self@.runs =~= old(self)@.released().runs);
            assert forall|j: int| 0 <= j < self@.runs.len() implies (#[trigger] self@.runs[j]).wf(
                j,
            ) by {
                assert(old(self)@.runs[j].wf(j));
            }
            assert forall|x: NodeData| is_job_node(old(self)@.runs, x) implies is_job_node(
                self@.runs,
                x,
            ) by {}
            assert forall|i: int| 0 <= i < self@.queue.len() implies is_job_node(
                self@.runs,
                #[trigger] self@.queue[i],
            ) by {
                assert(is_job_node(old(self)@.runs, old(self)@.queue[i]));
            }
        }
    }

    /// Phase two of a tick: every node whose predecessors are done and
    /// whose data has arrived enters the ready queue.
    pub fn enqueue_ready(&mut self)
        requires
            old(self)@.wf(),
        ensures
            final(self)@ == old(self)@.admitted(),
            final(self)@.wf(),
            final(self).runs@.len() == old(self).runs@.len(),
    {
        let time = self.current_time;
        let mut d: usize = 0;
        while d < self.runs.len()
            invariant
                self@.wf(),
                time == self.current_time,
                d <= self.runs@.len(),
                self.runs@.len() == old(self).runs@.len(),
                self@ == old(self)@.admit_runs(d as int),
            decreases self.runs@.len() - d,
        {
            let ghost before = self@;
            assert(before.runs[d as int].wf(d as int));
            let n = self.runs[d].states.len();
            let mut v: usize = 0;
            while v < n
                invariant
                    self@.wf(),
                    before.wf(),
                    time == self.current_time,
                    d < self.runs@.len(),
                    self.runs@.len() == old(self).runs@.len(),
                    n == before.runs[d as int].states.len(),
                    n == self.runs@[d as int].states@.len(),
                    v <= n,
                    self@ == before.admit_run(d as int, v as int),
                decreases n - v,
            {
                let ghost prev = self@;
                assert(prev.runs[d as int].wf(d as int));
                if self.runs[d].is_ready(v, time) {
                    let mut node: NodeData = self.runs[d].dag.nodes[v];
                    assert(node.id >= 0 && can_run(node)) by {
                        assert(prev.runs[d as int].dag.nodes@[v as int].id >= 0);
                    }
                    node.id = v as i32;
                    node.dag_id = Some(d as i32);
                    self.runs[d].states[v] = NodeState::Ready;
                    self.ready_queue.push_back(node);
                    if node.priority.is_none() {
                        self.degraded.push((d, v));
                    }
                    proof {
                        let next = prev.admit_node(d as int, v as int);
                        assert(self@.runs =~= next.runs);
                        assert(self@ == next);
                        assert(!prev.runs[d as int].is_complete());
                        assert forall|j: int| 0 <= j < self@.runs.len() implies (
                        #[trigger] self@.runs[j]).wf(j) by {
                            assert(prev.runs[j].wf(j));
                        }
                        assert forall|i: int| 0 <= i < self@.queue.len() implies is_job_node(
                            self@.runs,
                            #[trigger] self@.queue[i],
                        ) by {
                            if i < prev.queue.len() {
                                assert(is_job_node(prev.runs, prev.queue[i]));
                            }
                        }
                        assert forall|c: int|
                            0 <= c < self@.cores.len() && !(
                            #[trigger] self@.cores[c]).is_idle() implies is_job_node(
                            self@.runs,
                            self@.cores[c].processing_node->0,
                        ) by {
                            assert(is_job_node(prev.runs, prev.cores[c].processing_node->0));
                        }
                    }
                }
                v += 1;
            }
            d += 1;
        }
    }

    /// Phase three of a tick: the ready queue is put in order.
    pub fn sort(&mut self)
        requires
            old(self)@.wf(),
        ensures
            final(self)@ == old(self)@.sorted(),
            final(self)@.wf(),
            final(self).runs@.len() == old(self).runs@.len(),
    {
        proof {
            lemma_sorted_members(self.ready_queue@);
        }
        sort_ready_queue(&mut self.ready_queue);
        proof {
            assert forall|i: int| 0 <= i < self@.queue.len() implies is_job_node(
                self@.runs,
                #[trigger] self@.queue[i],
            ) by {
                let y = self@.queue[i];
                assert(old(self)@.queue.contains(y));
                let j = choose|j: int| 0 <= j < old(self)@.queue.len() && old(self)@.queue[j] == y;
                assert(is_job_node(old(self)@.runs, old(self)@.queue[j]));
            }
        }
    }
}

impl SchedulerEngine {
    /// Whether a node of task `d` may run on core `c`.
    pub fn is_eligible(&self, d: usize, c: usize) -> (eligible: bool)
        requires
            self@.wf(),
            d < self.runs@.len(),
            c < self.owners@.len(),
        ensures
            eligible == self@.eligible(d as int, c as int),
    {
        match self.owners[c] {
            Some(h) => h == d || (!self.runs[d].heavy && !self.runs[h].active),
            None => !self.runs[d].heavy,
        }
    }

    /// The core that `x` is bound to now, if there is one for it.
    pub fn place(&self, x: &NodeData) -> (core: Option<usize>)
        requires
            self@.wf(),
            is_job_node(self@.runs, *x),
        ensures
            core == self@.placement(*x),
            core is Some ==> core->0 < self@.cores.len(),
    {
        let d = match x.dag_id {
            Some(d) => d as usize,
            None => 0,
        };
        let n = self.processor.cores.len();
        let mut c: usize = 0;
        while c < n
            invariant
                self@.wf(),
                d == dag_of(*x),
                d < self.runs@.len(),
                n == self@.cores.len(),
                c <= n,
                self@.first_eligible_idle(d as int, 0) == self@.first_eligible_idle(
                    d as int,
                    c as int,
                ),
            decreases n - c,
        {
            if self.processor.cores[c].get_is_idle() && self.is_eligible(d, c) {
                return Some(c);
            }
            c += 1;
        }
        match self.policy {
            PreemptiveType::NonPreemptive => {
                return None;
            },
            PreemptiveType::Preemptive => {},
        }
        let mut victim: Option<usize> = None;
        let mut worst: i32 = 0;
        let mut c: usize = 0;
        while c < n
            invariant
                self@.wf(),
                d == dag_of(*x),
                d < self.runs@.len(),
                n == self@.cores.len(),
                c <= n,
                victim == self@.victim_upto(d as int, c as int),
                victim is Some ==> victim->0 < c && !self@.cores[victim->0 as int].is_idle()
                    && worst == priority_of(self@.cores[victim->0 as int].processing_node->0),
            decreases n - c,
        {
            let core: Core = self.processor.cores[c];
            if let Some(node) = core.processing_node {
                if self.is_eligible(d, c) {
                    let priority = get_priority(&node);
                    if victim.is_none() || priority > worst {
                        victim = Some(c);
                        worst = priority;
                    }
                }
            }
            c += 1;
        }
        match victim {
            Some(c) => {
                if worst > get_priority(x) {
                    Some(c)
                } else {
                    None
                }
            },
            None => None,
        }
    }

    /// Binds `x` to core `c`. The node that runs there, if any, is taken
    /// off and joins `evicted`.
    pub fn bind(&mut self, x: &NodeData, c: usize, evicted: &mut VecDeque<NodeData>)
        requires
            old(self)@.wf(),
            is_job_node(old(self)@.runs, *x),
            c < old(self)@.cores.len(),
            forall|i: int|
                0 <= i < old(evicted)@.len() ==> is_job_node(
                    old(self)@.runs,
                    #[trigger] old(evicted)@[i],
                ),
        ensures
            (PassView { view: final(self)@, evicted: final(evicted)@ }) == (PassView {
                view: old(self)@,
                evicted: old(evicted)@,
            }).bound(*x, c),
            final(self)@.wf(),
            final(self)@.runs.len() == old(self)@.runs.len(),
            forall|y: NodeData|
                is_job_node(old(self)@.runs, y) ==> is_job_node(final(self)@.runs, y),
            forall|i: int|
                0 <= i < final(evicted)@.len() ==> is_job_node(
                    final(self)@.runs,
                    #[trigger] final(evicted)@[i],
                ),
    {
        let ghost start = PassView { view: self@, evicted: evicted@ };
        let time = self.current_time;
        let d = match x.dag_id {
            Some(d) => d as usize,
            None => 0,
        };
        let v = x.id as usize;
        assert(self@.cores[c as int].wf());
        let core: Core = self.processor.cores[c];
        if let Some(y) = core.processing_node {
            assert(is_job_node(self@.runs, y));
            let yd = match y.dag_id {
                Some(yd) => yd as usize,
                None => 0,
            };
            let yv = y.id as usize;
            let job = self.runs[yd].job_id - 1;
            assert(self@.runs[yd as int].wf(yd as int));
            assert(self.runs@[yd as int].dag.nodes@[yv as int].id >= 0);
            let name = self.runs[yd].dag.nodes[yv].id as usize;
            self.events.push(JobLog::new(c, yd, name, job, JobEventTimes::PreemptedTime(time)));
            self.runs[yd].states[yv] = NodeState::Preempted;
            match self.processor.preempt_execution(c) {
                Some(node) => {
                    evicted.push_back(node);
                },
                None => {},
            }
        }
        let job = self.runs[d].job_id - 1;
        let event_time = if x.is_preempted.is_some() {
            JobEventTimes::ResumeTime(time)
        } else {
            JobEventTimes::StartTime(time)
        };
        assert(start.view.runs[d as int].wf(d as int));
        assert(self.runs@[d as int].dag.nodes@[v as int].id >= 0);
        let name = self.runs[d].dag.nodes[v].id as usize;
        self.events.push(JobLog::new(c, d, name, job, event_time));
        self.runs[d].states[v] = NodeState::Running;
        let allocated = self.processor.allocate_specific_core(c, x);
        assert(allocated);
        if x.is_preempted.is_none() {
            self.execution_order.push((d, v));
        }
        proof {
            let target = start.bound(*x, c);
            assert(self@.runs =~= target.view.runs);
            assert(self@.cores =~= target.view.cores);
            assert(self@.events =~= target.view.events);
            assert(self@.order =~= target.view.order);
            assert(evicted@ =~= target.evicted);
            assert(self@ == target.view);
            assert forall|j: int| 0 <= j < self@.runs.len() implies (#[trigger] self@.runs[j]).wf(
                j,
            ) by {
                assert(start.view.runs[j].wf(j));
                assert(!start.view.runs[dag_of(*x)].is_complete() || start.view.runs[dag_of(
                    *x,
                )].job_id >= 1);
            }
            assert forall|k: int|
                0 <= k < self@.cores.len() && !(#[trigger] self@.cores[k]).is_idle() implies is_job_node(
                self@.runs,
                self@.cores[k].processing_node->0,
            ) by {
                if k != c {
                    assert(is_job_node(start.view.runs, start.view.cores[k].processing_node->0));
                }
            }
            assert forall|i: int| 0 <= i < self@.queue.len() implies is_job_node(
                self@.runs,
                #[trigger] self@.queue[i],
            ) by {
                assert(is_job_node(start.view.runs, start.view.queue[i]));
            }
            assert forall|i: int| 0 <= i < evicted@.len() implies is_job_node(
                self@.runs,
                #[trigger] evicted@[i],
            ) by {
                if i < start.evicted.len() {
                    assert(is_job_node(start.view.runs, start.evicted[i]));
                }
            }
        }
    }

    /// Phase four of a tick: every node of the ready queue is considered
    /// once, in the order of the queue, and bound to a core if there is one
    /// for it.
    pub fn allocate(&mut self)
        requires
            old(self)@.wf(),
        ensures
            final(self)@ == old(self)@.allocated(),
            final(self)@.wf(),
            final(self).runs@.len() == old(self).runs@.len(),
    {
        let mut waiting: VecDeque<NodeData> = VecDeque::new();
        std::mem::swap(&mut waiting, &mut self.ready_queue);
        let mut evicted: VecDeque<NodeData> = VecDeque::new();
        let mut i: usize = 0;
        assert(self@ == old(self)@.allocate_upto(0).view);
        while i < waiting.len()
            invariant
                self@.wf(),
                waiting@ == old(self)@.queue,
                i <= waiting@.len(),
                self@.runs.len() == old(self)@.runs.len(),
                (PassView { view: self@, evicted: evicted@ }) == old(self)@.allocate_upto(i as int),
                forall|j: int|
                    0 <= j < waiting@.len() ==> is_job_node(self@.runs, #[trigger] waiting@[j]),
                forall|j: int|
                    0 <= j < evicted@.len() ==> is_job_node(self@.runs, #[trigger] evicted@[j]),
            decreases waiting@.len() - i,
        {
            let x = waiting[i];
            assert(is_job_node(self@.runs, waiting@[i as int]));
            match self.place(&x) {
                Some(c) => {
                    self.bind(&x, c, &mut evicted);
                    assert forall|j: int| 0 <= j < waiting@.len() implies is_job_node(
                        self@.runs,
                        #[trigger] waiting@[j],
                    ) by {}
                },
                None => {
                    self.ready_queue.push_back(x);
                },
            }
            i += 1;
        }
        let ghost pass = PassView { view: self@, evicted: evicted@ };
        self.ready_queue.append(&mut evicted);
        proof {
            assert(self@.queue =~= pass.view.queue + pass.evicted);
            assert(self@ == old(self)@.allocated());
            assert forall|j: int| 0 <= j < self@.queue.len() implies is_job_node(
                self@.runs,
                #[trigger] self@.queue[j],
            ) by {
                if j < pass.view.queue.len() {
                    assert(is_job_node(pass.view.runs, pass.view.queue[j]));
                } else {
                    assert(is_job_node(pass.view.runs, pass.evicted[j - pass.view.queue.len()]));
                }
            }
        }
    }

    /// Phase five of a tick: every core runs for one tick, what was done
    /// is recorded, and the clock moves on.
    pub fn process(&mut self)
        requires
            old(self)@.wf(),
            old(self).current_time < old(self).horizon,
        ensures
            final(self)@ == old(self)@.processed(),
            final(self)@.wf(),
            final(self).runs@.len() == old(self).runs@.len(),
            final(self).current_time == old(self).current_time + 1,
            final(self).horizon == old(self).horizon,
    {
        let ghost cores0 = self.processor.cores@;
        let time = self.current_time;
        let now = time + 1;
        let results = self.processor.process();
        let ghost ticked = self@;
        assert(ticked == (EngineView {
            cores: cores0.map_values(|core: Core| core.ticked()),
            ..old(self)@
        }));
        let n = results.len();
        let mut c: usize = 0;
        while c < n
            invariant
                old(self)@.wf(),
                cores0 == old(self)@.cores,
                n == cores0.len(),
                results@ == cores0.map_values(|core: Core| core.tick_result()),
                time == self.current_time,
                time == old(self).current_time,
                self.horizon == old(self).horizon,
                now == time + 1,
                c <= n,
                self@ == ticked.process_upto(cores0, c as int),
                self@.cores == ticked.cores,
                self@.busy.len() == n,
                self@.runs.len() == old(self)@.runs.len(),
                self@.queue == old(self)@.queue,
                self@.owners == old(self)@.owners,
                forall|j: int| 0 <= j < self@.runs.len() ==> (#[trigger] self@.runs[j]).wf(j),
                forall|i: int|
                    0 <= i < self@.events.len() ==> (#[trigger] self@.events[i]).dag_id
                        < self@.runs.len(),
                forall|k: int|
                    0 <= k < n ==> 0 <= (#[trigger] self@.busy[k]).total_proc_time <= if k < c {
                        now
                    } else {
                        time
                    },
                forall|y: NodeData|
                    is_job_node(old(self)@.runs, y) ==> is_job_node(self@.runs, y),
            decreases n - c,
        {
            let ghost prev = self@;
            assert(results@[c as int] == cores0[c as int].tick_result());
            assert(cores0[c as int].wf());
            match results[c] {
                ProcessResult::Idle => {},
                ProcessResult::Continue => {
                    let mut log: CoreLog = self.busy[c];
                    if log.total_proc_time < i32::MAX {
                        log.total_proc_time = log.total_proc_time + 1;
                    }
                    self.busy[c] = log;
                    assert(self@.busy =~= prev.core_processed(c as int, cores0[c as int]).busy);
                },
                ProcessResult::Done(y) => {
                    assert(is_job_node(old(self)@.runs, cores0[c as int].processing_node->0));
                    assert(is_job_node(prev.runs, y));
                    let mut log: CoreLog = self.busy[c];
                    if log.total_proc_time < i32::MAX {
                        log.total_proc_time = log.total_proc_time + 1;
                    }
                    self.busy[c] = log;
                    let d = match y.dag_id {
                        Some(d) => d as usize,
                        None => 0,
                    };
                    let v = y.id as usize;
                    assert(prev.runs[d as int].wf(d as int));
                    let job = self.runs[d].job_id - 1;
                    assert(self.runs@[d as int].dag.nodes@[v as int].id >= 0);
                    let name = self.runs[d].dag.nodes[v].id as usize;
                    self.events.push(JobLog::new(c, d, name, job, JobEventTimes::FinishTime(now)));
                    self.runs[d].states[v] = NodeState::Finished;
                    self.runs[d].finish_times[v] = now;
                    if self.runs[d].is_complete() {
                        self.runs[d].active = false;
                        self.runs[d].finish_log.push(now);
                    }
                    proof {
                        let target = prev.core_processed(c as int, cores0[c as int]);
                        assert(self@.runs =~= target.runs);
                        assert(self@.busy =~= target.busy);
                        assert(self@.events =~= target.events);
                        assert(self@ == target);
                        assert forall|j: int| 0 <= j < self@.runs.len() implies (
                        #[trigger] self@.runs[j]).wf(j) by {
                            assert(prev.runs[j].wf(j));
                        }
                    }
                },
            }
            c += 1;
        }
        self.current_time = now;
        proof {
            assert(self@ == old(self)@.processed());
            assert forall|k: int| 0 <= k < self@.cores.len() implies (#[trigger] self@.cores[k]).wf() by {
                assert(cores0[k].wf());
            }
            assert forall|k: int|
                0 <= k < self@.cores.len() && !(#[trigger] self@.cores[k]).is_idle() implies is_job_node(
                self@.runs,
                self@.cores[k].processing_node->0,
            ) by {
                assert(is_job_node(old(self)@.runs, cores0[k].processing_node->0));
            }
            assert forall|i: int| 0 <= i < self@.queue.len() implies is_job_node(
                self@.runs,
                #[trigger] self@.queue[i],
            ) by {
                assert(is_job_node(old(self)@.runs, old(self)@.queue[i]));
            }
        }
    }

    /// One tick of the run. As no core is bound to two nodes in a tick, no
    /// core has been busy for more ticks than the clock counts.
    pub fn tick(&mut self)
        requires
            old(self)@.wf(),
            old(self).current_time < old(self).horizon,
        ensures
            final(self)@ == old(self)@.ticked(),
            final(self)@.wf(),
            final(self).runs@.len() == old(self).runs@.len(),
            final(self).current_time == old(self).current_time + 1,
            final(self).horizon == old(self).horizon,
            forall|c: int|
                0 <= c < final(self).busy@.len() ==> 0 <= (
                #[trigger] final(self).busy@[c]).total_proc_time <= final(self).current_time,
    {
        self.release();
        self.enqueue_ready();
        self.sort();
        self.allocate();
        assert(self.current_time == old(self).current_time && self.horizon == old(self).horizon) by {
            old(self)@.lemma_phases_keep_the_clock();
        }
        self.process();
    }
}

impl EngineView {
    /// Entering the ready queue changes neither the clock nor the horizon.
    pub proof fn lemma_admit_keeps_the_clock(self, d: int, upto: int)
        ensures
            self.admit_run(d, upto).time == self.time,
            self.admit_run(d, upto).horizon == self.horizon,
            self.admit_runs(upto).time == self.time,
            self.admit_runs(upto).horizon == self.horizon,
        decreases upto,
    {
        if upto > 0 {
            self.lemma_admit_keeps_the_clock(d, upto - 1);
            let before = self.admit_runs(upto - 1);
            before.lemma_admit_run_keeps_the_clock(upto - 1, before.runs[upto - 1].states.len() as int);
        }
    }

    pub proof fn lemma_admit_run_keeps_the_clock(self, d: int, upto: int)
        ensures
            self.admit_run(d, upto).time == self.time,
            self.admit_run(d, upto).horizon == self.horizon,
        decreases upto,
    {
        if upto > 0 {
            self.lemma_admit_run_keeps_the_clock(d, upto - 1);
        }
    }

    /// Allocation changes neither the clock nor the horizon.
    pub proof fn lemma_allocate_keeps_the_clock(self, upto: int)
        ensures
            self.allocate_upto(upto).view.time == self.time,
            self.allocate_upto(upto).view.horizon == self.horizon,
        decreases upto,
    {
        if upto > 0 {
            self.lemma_allocate_keeps_the_clock(upto - 1);
        }
    }

    /// The first four phases of a tick leave the clock and the horizon as
    /// they are.
    pub proof fn lemma_phases_keep_the_clock(self)
        ensures
            self.released().admitted().sorted().allocated().time == self.time,
            self.released().admitted().sorted().allocated().horizon == self.horizon,
    {
        let a = self.released();
        a.lemma_admit_keeps_the_clock(0, a.runs.len() as int);
        let b = a.admitted().sorted();
        b.lemma_allocate_keeps_the_clock(b.queue.len() as int);
    }
}

impl SchedulerEngine {
    /// Runs the engine to its horizon, tick by tick.
    pub fn run_to_horizon(&mut self)
        requires
            old(self)@.wf(),
        ensures
            final(self)@.wf(),
            final(self).runs@.len() == old(self).runs@.len(),
            final(self).current_time == old(self).horizon,
            final(self).horizon == old(self).horizon,
            final(self)@ == old(self)@.after_ticks(
                (old(self).horizon - old(self).current_time) as nat,
            ),
    {
        let begin = self.current_time;
        while self.current_time < self.horizon
            invariant
                self@.wf(),
                self.runs@.len() == old(self).runs@.len(),
                self.horizon == old(self).horizon,
                begin == old(self).current_time,
                begin <= self.current_time <= self.horizon,
                self@ == old(self)@.after_ticks((self.current_time - begin) as nat),
            decreases self.horizon - self.current_time,
        {
            self.tick();
        }
    }
}

} // verus!
