//! The scheduling engine as a state machine: what a state holds and what
//! one tick makes of it, phase by phase.

use crate::graph_extension::{Dag, NodeData};
use crate::log::{CoreLog, JobEventTimes, JobLog};
use crate::processor::{can_run, Core};
use vstd::prelude::*;

verus! {

/// Whether a running node may be taken off its core for a more urgent one.
#[derive(Debug, Clone, Copy, PartialEq, Eq, Structural)]
pub enum PreemptiveType {
    NonPreemptive,
    Preemptive,
}

/// Where a node of the current instance of its task stands.
#[derive(Debug, Clone, Copy, PartialEq, Eq, Structural)]
pub enum NodeState {
    /// Waiting for its predecessors.
    Idle,
    /// In the ready queue, never run so far.
    Ready,
    /// On a core.
    Running,
    /// Done.
    Finished,
    /// In the ready queue again, after it was taken off a core.
    Preempted,
}

/// One task in a run.
pub struct RunView {
    pub dag: Dag,
    /// Whether the task has cores of its own and runs on those only.
    pub heavy: bool,
    pub period: Option<i32>,
    pub next_release: Option<i32>,
    /// Whether an instance of the task is under way.
    pub active: bool,
    /// How many instances have been started.
    pub job_id: usize,
    /// How many releases wait for the instance before them to end.
    pub backlog: usize,
    pub states: Seq<NodeState>,
    pub finish_times: Seq<i32>,
    pub release_times: Seq<i32>,
    pub finish_log: Seq<i32>,
}

/// The state of a run.
pub struct EngineView {
    pub runs: Seq<RunView>,
    pub cores: Seq<Core>,
    /// For every core, the task it is dedicated to, if any.
    pub owners: Seq<Option<usize>>,
    pub policy: PreemptiveType,
    pub horizon: i32,
    pub time: i32,
    pub queue: Seq<NodeData>,
    /// The nodes in the order in which they were first started.
    pub order: Seq<(usize, usize)>,
    pub events: Seq<JobLog>,
    pub busy: Seq<CoreLog>,
    /// The nodes that became ready without a priority.
    pub degraded: Seq<(usize, usize)>,
}

/// The priority by which a node is ordered: its own, and the largest value
/// there is, which is the least urgent, where it has none.
pub open spec fn priority_of(node: NodeData) -> i32 {
    match node.priority {
        Some(p) => p,
        None => i32::MAX,
    }
}

/// `queue`, which is in order, with `x` put behind every node that is at
/// least as urgent.
pub open spec fn inserted(queue: Seq<NodeData>, x: NodeData) -> Seq<NodeData>
    decreases queue.len(),
{
    if queue.len() == 0 {
        seq![x]
    } else if priority_of(queue.last()) <= priority_of(x) {
        queue.push(x)
    } else {
        inserted(queue.drop_last(), x).push(queue.last())
    }
}

/// `queue` in ascending order of priority value, nodes of equal priority
/// in the order they had.
pub open spec fn sorted_by_priority(queue: Seq<NodeData>) -> Seq<NodeData>
    decreases queue.len(),
{
    if queue.len() == 0 {
        queue
    } else {
        inserted(sorted_by_priority(queue.drop_last()), queue.last())
    }
}

/// `node` as it stands in the ready queue and on a core: with its place `v`
/// in its task as its identity, and marked as a node of task `d`. The graph
/// of the task keeps the node as it was given.
pub open spec fn tagged(node: NodeData, d: int, v: int) -> NodeData {
    NodeData { id: v as i32, dag_id: Some(d as i32), ..node }
}

/// The task that `x` belongs to.
pub open spec fn dag_of(x: NodeData) -> int {
    x.dag_id->0 as int
}

/// The place of `x` in its task.
pub open spec fn node_of(x: NodeData) -> int {
    x.id as int
}

/// Whether `x` names a node of one of `runs` and has time to run.
pub open spec fn is_job_node(runs: Seq<RunView>, x: NodeData) -> bool {
    &&& x.dag_id is Some
    &&& 0 <= dag_of(x) < runs.len()
    &&& 0 <= node_of(x) < runs[dag_of(x)].states.len()
    &&& runs[dag_of(x)].job_id >= 1
    &&& can_run(x)
}

impl RunView {
    pub open spec fn node_count(self) -> int {
        self.dag.nodes@.len() as int
    }

    /// Whether every node of the instance is done.
    pub open spec fn is_complete(self) -> bool {
        forall|v: int| 0 <= v < self.states.len() ==> (#[trigger] self.states[v]) == NodeState::Finished
    }

    /// Whether the shapes fit, every node of the task takes at least one
    /// tick and has an identity that is not negative, and no time recorded is
    /// negative.
    pub open spec fn wf(self, d: int) -> bool {
        &&& self.dag.wf()
        &&& self.node_count() <= i32::MAX
        &&& 0 <= d <= i32::MAX
        &&& self.states.len() == self.node_count()
        &&& self.finish_times.len() == self.node_count()
        &&& forall|v: int|
            0 <= v < self.node_count() ==> {
                let node = #[trigger] self.dag.nodes@[v];
                node.id >= 0 && can_run(node)
            }
        &&& forall|v: int| 0 <= v < self.finish_times.len() ==> (#[trigger] self.finish_times[v]) >= 0
        &&& forall|i: int| 0 <= i < self.release_times.len() ==> (#[trigger] self.release_times[i]) >= 0
        &&& forall|i: int| 0 <= i < self.finish_log.len() ==> (#[trigger] self.finish_log[i]) >= 0
        &&& self.job_id == 0 ==> self.is_complete()
    }

    pub open spec fn with_state(self, v: int, state: NodeState) -> RunView {
        RunView { states: self.states.update(v, state), ..self }
    }

    /// Whether, over the first `upto` edges, every predecessor of `v` is
    /// done and its data has arrived by `time`.
    pub open spec fn ready_upto(self, v: int, time: int, upto: int) -> bool
        decreases upto,
    {
        if upto <= 0 {
            true
        } else {
            let e = self.dag.edges@[upto - 1];
            &&& self.ready_upto(v, time, upto - 1)
            &&& e.target == v ==> self.states[e.source as int] == NodeState::Finished
                && self.finish_times[e.source as int] + e.communication_time <= time
        }
    }

    /// Whether `v` may enter the ready queue at `time`.
    pub open spec fn is_ready(self, v: int, time: int) -> bool {
        self.states[v] == NodeState::Idle && self.ready_upto(
            v,
            time,
            self.dag.edges@.len() as int,
        )
    }

    /// When the task is released next after `time`, if at all before
    /// `horizon`.
    pub open spec fn release_after(self, time: i32, horizon: i32) -> Option<i32> {
        match self.period {
            Some(p) => if p > 0 && time + p < horizon {
                Some((time + p) as i32)
            } else {
                None
            },
            None => None,
        }
    }

    /// The task once a release that is due at `time` has been noted: the
    /// release has its time recorded and waits to be started.
    pub open spec fn noted(self, time: i32, horizon: i32) -> RunView {
        if self.next_release == Some(time) {
            RunView {
                next_release: self.release_after(time, horizon),
                release_times: self.release_times.push(time),
                backlog: if self.backlog < usize::MAX {
                    (self.backlog + 1) as usize
                } else {
                    self.backlog
                },
                ..self
            }
        } else {
            self
        }
    }

    /// The task after the release phase at `time`. A release that is due
    /// is noted with its own release time. Where a release waits and no
    /// instance is under way, the next instance starts; so the instances of
    /// a task run one after the other, and none is lost.
    pub open spec fn released(self, time: i32, horizon: i32) -> RunView {
        let noted = self.noted(time, horizon);
        if !noted.active && noted.backlog > 0 && noted.job_id < usize::MAX {
            RunView {
                active: noted.node_count() > 0,
                job_id: (noted.job_id + 1) as usize,
                backlog: (noted.backlog - 1) as usize,
                states: Seq::new(noted.states.len(), |v: int| NodeState::Idle),
                finish_log: if noted.node_count() > 0 {
                    noted.finish_log
                } else {
                    noted.finish_log.push(time)
                },
                ..noted
            }
        } else {
            noted
        }
    }
}

impl EngineView {
    /// What every phase keeps: the shapes fit, every index is in range, the
    /// nodes in the queue and on the cores are nodes of the tasks, and no
    /// core has been busy for more ticks than there were.
    pub open spec fn wf(self) -> bool {
        &&& forall|d: int| 0 <= d < self.runs.len() ==> (#[trigger] self.runs[d]).wf(d)
        &&& self.cores.len() == self.owners.len()
        &&& self.cores.len() == self.busy.len()
        &&& forall|c: int| 0 <= c < self.cores.len() ==> (#[trigger] self.cores[c]).wf()
        &&& forall|c: int|
            0 <= c < self.cores.len() && !(#[trigger] self.cores[c]).is_idle() ==> is_job_node(
                self.runs,
                self.cores[c].processing_node->0,
            )
        &&& forall|c: int|
            0 <= c < self.owners.len() && (#[trigger] self.owners[c]) is Some ==> self.owners[c]->0
                < self.runs.len()
        &&& forall|i: int| 0 <= i < self.queue.len() ==> is_job_node(self.runs, #[trigger] self.queue[i])
        &&& forall|i: int| 0 <= i < self.events.len() ==> (#[trigger] self.events[i]).dag_id < self.runs.len()
        &&& forall|c: int|
            0 <= c < self.busy.len() ==> 0 <= (#[trigger] self.busy[c]).total_proc_time <= self.time
        &&& 0 <= self.time <= self.horizon
    }

    /// Phase one: every task that is due is released.
    pub open spec fn released(self) -> EngineView {
        EngineView {
            runs: self.runs.map_values(|r: RunView| r.released(self.time, self.horizon)),
            ..self
        }
    }

    /// Node `n` of task `d` enters the ready queue if it may.
    pub open spec fn admit_node(self, d: int, n: int) -> EngineView {
        let r = self.runs[d];
        if r.is_ready(n, self.time as int) {
            EngineView {
                runs: self.runs.update(d, r.with_state(n, NodeState::Ready)),
                queue: self.queue.push(tagged(r.dag.nodes@[n], d, n)),
                degraded: if r.dag.nodes@[n].priority is None {
                    self.degraded.push((d as usize, n as usize))
                } else {
                    self.degraded
                },
                ..self
            }
        } else {
            self
        }
    }

    /// The first `upto` nodes of task `d` enter the ready queue if they may.
    pub open spec fn admit_run(self, d: int, upto: int) -> EngineView
        decreases upto,
    {
        if upto <= 0 {
            self
        } else {
            self.admit_run(d, upto - 1).admit_node(d, upto - 1)
        }
    }

    /// The nodes of the first `upto` tasks enter the ready queue if they may.
    pub open spec fn admit_runs(self, upto: int) -> EngineView
        decreases upto,
    {
        if upto <= 0 {
            self
        } else {
            let before = self.admit_runs(upto - 1);
            before.admit_run(upto - 1, before.runs[upto - 1].states.len() as int)
        }
    }

    /// Phase two: every node whose predecessors are done and whose data has
    /// arrived enters the ready queue, task by task and node by node.
    pub open spec fn admitted(self) -> EngineView {
        self.admit_runs(self.runs.len() as int)
    }

    /// Phase three: the ready queue is put in order.
    pub open spec fn sorted(self) -> EngineView {
        EngineView { queue: sorted_by_priority(self.queue), ..self }
    }

    /// Whether a node of task `d` may run on core `c`: on a core of its
    /// own task always; a task without cores of its own also on a core that
    /// belongs to nobody, or to a task that has no instance under way.
    pub open spec fn eligible(self, d: int, c: int) -> bool {
        match self.owners[c] {
            Some(h) => h == d || (!self.runs[d].heavy && !self.runs[h as int].active),
            None => !self.runs[d].heavy,
        }
    }

    /// The idle core of lowest index from `from` on that a node of task `d`
    /// may run on.
    pub open spec fn first_eligible_idle(self, d: int, from: int) -> Option<usize>
        decreases self.cores.len() - from,
    {
        if from < 0 || from >= self.cores.len() {
            None
        } else if self.cores[from].is_idle() && self.eligible(d, from) {
            Some(from as usize)
        } else {
            self.first_eligible_idle(d, from + 1)
        }
    }

    /// Among the first `upto` cores: the busy core that a node of task `d`
    /// may run on whose node is the least urgent, the lowest index among
    /// equals.
    pub open spec fn victim_upto(self, d: int, upto: int) -> Option<usize>
        decreases upto,
    {
        if upto <= 0 {
            None
        } else {
            let rest = self.victim_upto(d, upto - 1);
            let c = upto - 1;
            if !self.cores[c].is_idle() && self.eligible(d, c) && (rest is None || priority_of(
                self.cores[c].processing_node->0,
            ) > priority_of(self.cores[rest->0 as int].processing_node->0)) {
                Some(c as usize)
            } else {
                rest
            }
        }
    }

    /// The core that `x` is bound to now: the first idle core it may run
    /// on; failing that, where running nodes may be displaced, the core of
    /// the least urgent node it may displace, if that node is less urgent
    /// than `x`.
    pub open spec fn placement(self, x: NodeData) -> Option<usize> {
        match self.first_eligible_idle(dag_of(x), 0) {
            Some(c) => Some(c),
            None => if self.policy == PreemptiveType::Preemptive {
                match self.victim_upto(dag_of(x), self.cores.len() as int) {
                    Some(c) => if priority_of(self.cores[c as int].processing_node->0)
                        > priority_of(x) {
                        Some(c)
                    } else {
                        None
                    },
                    None => None,
                }
            } else {
                None
            },
        }
    }

    /// The event of `x` at the present time on core `c`. It names the node
    /// by the identity that the node has in the graph of its task.
    pub open spec fn event(self, x: NodeData, c: usize, event_time: JobEventTimes) -> JobLog {
        JobLog {
            core_id: c,
            dag_id: dag_of(x) as usize,
            node_id: self.runs[dag_of(x)].dag.nodes@[node_of(x)].id as usize,
            job_id: (self.runs[dag_of(x)].job_id - 1) as usize,
            event_time,
        }
    }

    /// The event that records that `x` takes up core `c` now.
    pub open spec fn start_event(self, x: NodeData, c: usize) -> JobLog {
        self.event(
            x,
            c,
            if x.is_preempted is Some {
                JobEventTimes::ResumeTime(self.time)
            } else {
                JobEventTimes::StartTime(self.time)
            },
        )
    }
}

/// The state in the middle of the allocation phase: the ready queue holds
/// the nodes that were considered and found no core; `evicted` holds the
/// nodes that were taken off a core.
pub struct PassView {
    pub view: EngineView,
    pub evicted: Seq<NodeData>,
}

impl PassView {
    /// `x` takes up core `c`, and the node that runs there, if any, leaves.
    pub open spec fn bound(self, x: NodeData, c: usize) -> PassView {
        let v = self.view;
        let core = v.cores[c as int];
        let cores = v.cores.update(c as int, Core::running(x));
        let order = if x.is_preempted is None {
            v.order.push((dag_of(x) as usize, node_of(x) as usize))
        } else {
            v.order
        };
        if core.is_idle() {
            PassView {
                view: EngineView {
                    cores,
                    runs: v.runs.update(
                        dag_of(x),
                        v.runs[dag_of(x)].with_state(node_of(x), NodeState::Running),
                    ),
                    events: v.events.push(v.start_event(x, c)),
                    order,
                    ..v
                },
                evicted: self.evicted,
            }
        } else {
            let y = core.processing_node->0;
            let runs = v.runs.update(
                dag_of(y),
                v.runs[dag_of(y)].with_state(node_of(y), NodeState::Preempted),
            );
            PassView {
                view: EngineView {
                    cores,
                    runs: runs.update(
                        dag_of(x),
                        runs[dag_of(x)].with_state(node_of(x), NodeState::Running),
                    ),
                    events: v.events.push(
                        v.event(y, c, JobEventTimes::PreemptedTime(v.time)),
                    ).push(v.start_event(x, c)),
                    order,
                    ..v
                },
                evicted: self.evicted.push(core.preempted_node()),
            }
        }
    }

    /// `x` is bound to a core if there is one for it, and waits otherwise.
    pub open spec fn considered(self, x: NodeData) -> PassView {
        match self.view.placement(x) {
            Some(c) => self.bound(x, c),
            None => PassView {
                view: EngineView { queue: self.view.queue.push(x), ..self.view },
                evicted: self.evicted,
            },
        }
    }
}

impl EngineView {
    /// The first `upto` nodes of the ready queue have been considered, in
    /// the order of the queue.
    pub open spec fn allocate_upto(self, upto: int) -> PassView
        decreases upto,
    {
        if upto <= 0 {
            PassView { view: EngineView { queue: Seq::empty(), ..self }, evicted: Seq::empty() }
        } else {
            self.allocate_upto(upto - 1).considered(self.queue[upto - 1])
        }
    }

    /// Phase four: every node of the ready queue is considered once, in the
    /// order of the queue. The nodes that found no core wait on, in their
    /// order, followed by the nodes that were taken off a core.
    pub open spec fn allocated(self) -> EngineView {
        let pass = self.allocate_upto(self.queue.len() as int);
        EngineView { queue: pass.view.queue + pass.evicted, ..pass.view }
    }

    /// What the tick does to the records for core `c`, which was `core`
    /// before the tick: a busy tick is counted, and a node that is done is
    /// marked so, with the instance of its task if that is done with it.
    pub open spec fn core_processed(self, c: int, core: Core) -> EngineView {
        match core.processing_node {
            None => self,
            Some(y) => {
                let busy = self.busy.update(c, self.busy[c].ticked());
                if core.remain_proc_time <= 1 {
                    let now = (self.time + 1) as i32;
                    let r = self.runs[dag_of(y)];
                    let done = RunView {
                        states: r.states.update(node_of(y), NodeState::Finished),
                        finish_times: r.finish_times.update(node_of(y), now),
                        ..r
                    };
                    let closed = if done.is_complete() {
                        RunView { active: false, finish_log: done.finish_log.push(now), ..done }
                    } else {
                        done
                    };
                    EngineView {
                        runs: self.runs.update(dag_of(y), closed),
                        events: self.events.push(
                            self.event(y, c as usize, JobEventTimes::FinishTime(now)),
                        ),
                        busy,
                        ..self
                    }
                } else {
                    EngineView { busy, ..self }
                }
            },
        }
    }

    /// The records after the tick on the first `upto` of `cores`.
    pub open spec fn process_upto(self, cores: Seq<Core>, upto: int) -> EngineView
        decreases upto,
    {
        if upto <= 0 {
            self
        } else {
            self.process_upto(cores, upto - 1).core_processed(upto - 1, cores[upto - 1])
        }
    }

    /// Phase five: every core runs for one tick, and the clock moves on.
    pub open spec fn processed(self) -> EngineView {
        let ticked = EngineView {
            cores: self.cores.map_values(|core: Core| core.ticked()),
            ..self
        };
        let recorded = ticked.process_upto(self.cores, self.cores.len() as int);
        EngineView { time: (self.time + 1) as i32, ..recorded }
    }

    /// One tick: release, admission, ordering, allocation, processing.
    pub open spec fn ticked(self) -> EngineView {
        self.released().admitted().sorted().allocated().processed()
    }

    /// The state after `ticks` ticks.
    pub open spec fn after_ticks(self, ticks: nat) -> EngineView
        decreases ticks,
    {
        if ticks == 0 {
            self
        } else {
            self.after_ticks((ticks - 1) as nat).ticked()
        }
    }
}

} // verus!
