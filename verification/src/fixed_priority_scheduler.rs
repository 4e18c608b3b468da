//! Scheduling one task on a processor by the fixed priorities of its nodes.

use crate::engine::{sort_ready_queue, DagRun, SchedulerEngine};
use crate::engine_model::{sorted_by_priority, EngineView, NodeState, PreemptiveType};
use crate::engine_setup::{all_can_run, hold_fault};
use crate::graph_extension::{CustomError, Dag, NodeData};
use crate::log::{or_zero, CoreLog, DAGSchedulerLog, ProcessorLog};
use crate::processor::{Core, HomogeneousProcessor};
use std::collections::VecDeque;
use vstd::prelude::*;

verus! {

/// The ticks that `node` takes on a core: its execution time, and one tick
/// where it has none.
pub open spec fn ticks_of(node: NodeData) -> int {
    if node.wcet() >= 1 {
        node.wcet()
    } else {
        1
    }
}

impl Dag {
    /// Sum of the communication times of the first `upto` edges.
    pub open spec fn comm_upto(&self, upto: int) -> int
        decreases upto,
    {
        if upto <= 0 {
            0
        } else {
            self.comm_upto(upto - 1) + self.comm(upto - 1)
        }
    }

    /// The ticks that the first `upto` nodes take on a core: their execution
    /// times, a node without any counting as one tick.
    pub open spec fn ticks_upto(&self, upto: int) -> int
        decreases upto,
    {
        if upto <= 0 {
            0
        } else {
            self.ticks_upto(upto - 1) + ticks_of(self.nodes@[upto - 1])
        }
    }

    /// By when a run of the graph is over at the latest: one tick more than
    /// all nodes and all communication take together.
    pub open spec fn run_bound(&self) -> int {
        self.ticks_upto(self.nodes@.len() as int) + self.comm_upto(self.edges@.len() as int) + 1
    }

    /// The ticks only grow with the nodes counted.
    pub proof fn lemma_ticks_monotone(&self, a: int, b: int)
        requires
            0 <= a <= b <= self.nodes@.len(),
        ensures
            0 <= self.ticks_upto(a) <= self.ticks_upto(b),
        decreases b,
    {
        if a < b {
            self.lemma_ticks_monotone(a, b - 1);
        } else if a > 0 {
            self.lemma_ticks_monotone(a - 1, a - 1);
        }
    }

    /// The communication time only grows with the edges counted.
    pub proof fn lemma_comm_monotone(&self, a: int, b: int)
        requires
            self.wf(),
            0 <= a <= b <= self.edges@.len(),
        ensures
            0 <= self.comm_upto(a) <= self.comm_upto(b),
        decreases b,
    {
        if a < b {
            self.lemma_comm_monotone(a, b - 1);
        } else if a > 0 {
            self.lemma_comm_monotone(a - 1, a - 1);
        }
    }

    /// `run_bound`, or `Overflow` exactly when it is more than an `i32`
    /// holds.
    pub fn get_run_bound(&self) -> (bound: Result<i32, CustomError>)
        requires
            self.wf(),
        ensures
            match bound {
                Ok(b) => b == self.run_bound() && b >= 1,
                Err(e) => e == CustomError::Overflow && self.run_bound() > i32::MAX,
            },
    {
        proof {
            self.lemma_comm_monotone(0, self.edges@.len() as int);
            self.lemma_ticks_monotone(0, self.nodes@.len() as int);
        }
        let n = self.nodes.len();
        let mut volume: i32 = 0;
        let mut v: usize = 0;
        while v < n
            invariant
                self.wf(),
                n == self.nodes@.len(),
                v <= n,
                volume == self.ticks_upto(v as int),
                volume >= 0,
            decreases n - v,
        {
            let wcet = self.get_execution_time(v);
            let ticks = if wcet >= 1 {
                wcet
            } else {
                1
            };
            if ticks > i32::MAX - volume {
                proof {
                    self.lemma_ticks_monotone(v + 1, n as int);
                    self.lemma_comm_monotone(0, self.edges@.len() as int);
                }
                return Err(CustomError::Overflow);
            }
            volume = volume + ticks;
            v += 1;
        }
        let m = self.edges.len();
        let mut sum: i32 = volume;
        let mut e: usize = 0;
        while e < m
            invariant
                self.wf(),
                m == self.edges@.len(),
                e <= m,
                sum == volume + self.comm_upto(e as int),
                volume == self.ticks_upto(self.nodes@.len() as int),
                volume >= 0,
                sum >= 0,
            decreases m - e,
        {
            let comm = self.edges[e].communication_time;
            if comm > i32::MAX - sum {
                proof {
                    self.lemma_comm_monotone(e + 1, m as int);
                }
                return Err(CustomError::Overflow);
            }
            sum = sum + comm;
            e += 1;
        }
        if sum == i32::MAX {
            return Err(CustomError::Overflow);
        }
        Ok(sum + 1)
    }
}

impl Dag {
    /// Why the task cannot be run on `cores` cores, if it cannot: the fault
    /// of its description; else `Overflow` where the bound on its run is
    /// more than an `i32` holds; else why the engine cannot hold it; else
    /// `InsufficientCores` where it has a node and there is no core.
    pub open spec fn run_fault(&self, cores: int) -> Option<CustomError> {
        if self.info_fault() is Some {
            self.info_fault()
        } else if self.run_bound() > i32::MAX {
            Some(CustomError::Overflow)
        } else if hold_fault(*self, 0) is Some {
            hold_fault(*self, 0)
        } else if cores == 0 && self.nodes@.len() > 0 {
            Some(CustomError::InsufficientCores(0))
        } else {
            None
        }
    }
}

/// Two graphs whose nodes take the same time take the same ticks.
pub proof fn lemma_same_ticks(a: Dag, b: Dag, upto: int)
    requires
        a.nodes@.len() == b.nodes@.len(),
        0 <= upto <= a.nodes@.len(),
        forall|v: int|
            0 <= v < a.nodes@.len() ==> (#[trigger] a.nodes@[v]).execution_time
                == b.nodes@[v].execution_time,
    ensures
        a.ticks_upto(upto) == b.ticks_upto(upto),
    decreases upto,
{
    if upto > 0 {
        lemma_same_ticks(a, b, upto - 1);
        assert(a.nodes@[upto - 1].execution_time == b.nodes@[upto - 1].execution_time);
    }
}

/// Two graphs with the same edges have the same communication in all.
pub proof fn lemma_same_comm(a: Dag, b: Dag, upto: int)
    requires
        a.edges@ == b.edges@,
        0 <= upto <= a.edges@.len(),
    ensures
        a.comm_upto(upto) == b.comm_upto(upto),
    decreases upto,
{
    if upto > 0 {
        lemma_same_comm(a, b, upto - 1);
    }
}

/// A scheduler for one task: the engine that runs it and the record of
/// the run.
#[derive(Debug)]
pub struct FixedPriorityScheduler {
    pub engine: SchedulerEngine,
    pub log: DAGSchedulerLog,
}

/// The places in their task of the nodes that `order` names.
pub open spec fn node_places(order: Seq<(usize, usize)>) -> Seq<usize> {
    order.map_values(|pair: (usize, usize)| pair.1)
}

impl FixedPriorityScheduler {
    /// The engine holds one task, and its state is consistent.
    pub open spec fn wf(&self) -> bool {
        &&& self.engine@.wf()
        &&& self.engine.runs@.len() == 1
    }

    /// A scheduler for `dag` on a processor with the cores of `processor`,
    /// all of them idle, at time 0. Running nodes are not displaced. The
    /// scheduler holds a copy of the graph as it is given, and an empty
    /// record; `dag` and `processor` stay as they are.
    ///
    /// Fails exactly when the task cannot be run on so many cores, with
    /// the fault that `run_fault` names.
    pub fn new(dag: &Dag, processor: &HomogeneousProcessor) -> (scheduler: Result<
        FixedPriorityScheduler,
        CustomError,
    >)
        requires
            dag.wf(),
        ensures
            match scheduler {
                Ok(s) => {
                    &&& s.wf()
                    &&& s.engine@.is_fresh()
                    &&& dag.is_acyclic()
                    &&& all_can_run(*dag)
                    &&& s.engine.runs@[0].dag.nodes@ == dag.nodes@
                    &&& s.engine.runs@[0].dag.edges@ == dag.edges@
                    &&& !s.engine.runs@[0].heavy
                    &&& s.engine.runs@[0].period is None
                    &&& s.engine.runs@[0].next_release == Some(0i32)
                    &&& !s.engine.runs@[0].active
                    &&& s.engine.runs@[0].job_id == 0
                    &&& s.engine.runs@[0].backlog == 0
                    &&& s.engine.policy == PreemptiveType::NonPreemptive
                    &&& s.engine.horizon == dag.run_bound()
                    &&& s.engine.current_time == 0
                    &&& s.engine.processor.cores@ == Seq::new(
                        processor.cores@.len(),
                        |c: int| Core::idle(),
                    )
                    &&& s.engine.owners@ == Seq::new(
                        processor.cores@.len(),
                        |c: int| None::<usize>,
                    )
                    &&& s.engine.ready_queue@.len() == 0
                    &&& s.engine.execution_order@.len() == 0
                    &&& s.engine.events@.len() == 0
                    &&& dag.nodes@.len() > 0 ==> processor.cores@.len() > 0
                    &&& s.engine.busy@ == Seq::new(
                        processor.cores@.len(),
                        |i: int| (CoreLog { core_id: i as usize, total_proc_time: 0 }),
                    )
                    &&& s.log.dag_info.critical_path_length == dag.critical_path_length()
                    &&& s.log.dag_info.volume == dag.volume()
                    &&& s.log.dag_info.period == or_zero(dag.head_period())
                    &&& s.log.dag_info.end_to_end_deadline == or_zero(dag.end_to_end_deadline())
                    &&& s.log.processor_info.number_of_cores == processor.cores@.len()
                    &&& s.log.node_logs@.len() == 0
                    &&& s.log.processor_log.core_logs@ == Seq::new(
                        processor.cores@.len(),
                        |i: int| (CoreLog { core_id: i as usize, total_proc_time: 0 }),
                    )
                },
                Err(e) => dag.run_fault(processor.cores@.len() as int) == Some(e),
            },
            scheduler is Ok <==> dag.run_fault(processor.cores@.len() as int) is None,
    {
        let num_cores = processor.get_number_of_cores();
        let log = match DAGSchedulerLog::new(dag, num_cores) {
            Ok(log) => log,
            Err(e) => {
                return Err(e);
            },
        };
        let horizon = match dag.get_run_bound() {
            Ok(h) => h,
            Err(e) => {
                return Err(e);
            },
        };
        let run = match DagRun::new(dag, 0, false, None, Some(0)) {
            Ok(run) => run,
            Err(e) => {
                return Err(e);
            },
        };
        if num_cores == 0 && dag.node_count() > 0 {
            return Err(CustomError::InsufficientCores(0));
        }
        let mut runs: Vec<DagRun> = Vec::new();
        runs.push(run);
        let mut owners: Vec<Option<usize>> = Vec::new();
        let mut c: usize = 0;
        while c < num_cores
            invariant
                c <= num_cores,
                owners@ == Seq::new(c as nat, |c: int| None::<usize>),
            decreases num_cores - c,
        {
            owners.push(None);
            assert(owners@ =~= Seq::new((c + 1) as nat, |c: int| None::<usize>));
            c += 1;
        }
        let engine = SchedulerEngine::new(runs, owners, PreemptiveType::NonPreemptive, horizon);
        proof {
            let held = engine.runs@[0].dag;
            assert(held.nodes@.len() == dag.nodes@.len());
            assert forall|v: int| 0 <= v < held.nodes@.len() implies (
            #[trigger] held.nodes@[v]).execution_time == dag.nodes@[v].execution_time by {}
            lemma_same_ticks(held, *dag, held.nodes@.len() as int);
            lemma_same_comm(held, *dag, held.edges@.len() as int);
            let order = choose|order: Seq<usize>|
                crate::graph_extension::is_topological_order(
                    order,
                    dag.nodes@.len() as int,
                    dag.edges@,
                );
            assert(crate::graph_extension::is_topological_order(
                order,
                held.nodes@.len() as int,
                held.edges@,
            ));
            assert(engine@.runs[0] == engine.runs@[0]@);
            assert forall|v: int| 0 <= v < engine@.runs[0].finish_times.len() implies (
            #[trigger] engine@.runs[0].finish_times[v]) <= 0 by {}
        }
        Ok(FixedPriorityScheduler { engine, log })
    }

    pub fn get_name(&self) -> (name: String)
        ensures
            name@ == "FixedPriorityScheduler"@,
    {
        "FixedPriorityScheduler".to_owned()
    }

    /// Chooses whether running nodes may be displaced by more urgent ones.
    pub fn set_policy(&mut self, policy: PreemptiveType)
        requires
            old(self).wf(),
        ensures
            final(self).wf(),
            final(self).engine@ == (EngineView { policy, ..old(self).engine@ }),
            final(self).log == old(self).log,
    {
        self.engine.policy = policy;
    }

    /// A copy of the graph of the task, which is the graph that the
    /// scheduler was made for.
    pub fn get_dag(&self) -> (dag: Dag)
        requires
            self.wf(),
        ensures
            dag.nodes@ == self.engine.runs@[0].dag.nodes@,
            dag.edges@ == self.engine.runs@[0].dag.edges@,
    {
        self.engine.runs[0].dag.duplicate()
    }

    /// The processor in its present state.
    pub fn get_processor(&self) -> (processor: HomogeneousProcessor)
        ensures
            processor.cores@ == self.engine.processor.cores@,
    {
        self.engine.processor.duplicate()
    }

    /// Puts a ready queue in the order in which this scheduler serves it:
    /// ascending by priority value, nodes of equal priority in the order in
    /// which they entered, a node without a priority last.
    pub fn sort_ready_queue(ready_queue: &mut VecDeque<NodeData>)
        ensures
            final(ready_queue)@ == sorted_by_priority(old(ready_queue)@),
    {
        sort_ready_queue(ready_queue);
    }

    /// Whether the task has no instance under way.
    pub fn is_complete(&self) -> (complete: bool)
        requires
            self.wf(),
        ensures
            complete == !self.engine@.runs[0].active,
    {
        !self.engine.runs[0].active
    }

    /// One tick of the run.
    pub fn step(&mut self)
        requires
            old(self).wf(),
            old(self).engine.current_time < old(self).engine.horizon,
        ensures
            final(self).wf(),
            final(self).engine@ == old(self).engine@.ticked(),
            final(self).log == old(self).log,
    {
        self.engine.tick();
    }

    /// Runs the task to its end. Returns how long the run took and the
    /// places of the nodes in the order in which they were first started.
    /// On a scheduler as `new` makes it, the length is the latest finish
    /// time of the nodes of the task.
    ///
    /// The engine ticks until, after a tick, the task has no instance under
    /// way; the length is the number of ticks. A task without nodes takes
    /// no tick at all. Fails with `HorizonExceeded` exactly when the task is
    /// still under way at the horizon, which it never is on a scheduler as
    /// `new` makes it. The events and the busy times of the cores go to the
    /// log; no core has been busy for more ticks than the clock counts.
    #[verifier::rlimit(60)]
    pub fn schedule(&mut self) -> (result: Result<(i32, Vec<usize>), CustomError>)
        requires
            old(self).wf(),
        ensures
            final(self).wf(),
            final(self).log.dag_info == old(self).log.dag_info,
            final(self).log.processor_info == old(self).log.processor_info,
            old(self).engine@.is_fresh() ==> result is Ok,
            old(self).engine@.is_fresh() && old(self).engine@.runs[0].node_count() > 0 ==> {
                let finish_times = final(self).engine@.runs[0].finish_times;
                &&& forall|v: int|
                    0 <= v < finish_times.len() ==> (#[trigger] finish_times[v]) <= result->Ok_0.0
                &&& exists|v: int|
                    0 <= v < finish_times.len() && (#[trigger] finish_times[v]) == result->Ok_0.0
            },
            match result {
                Ok((length, order)) => {
                    let start = old(self).engine@;
                    &&& length >= 0
                    &&& start.time + length <= start.horizon
                    &&& final(self).engine@ == start.after_ticks(length as nat)
                    &&& start.runs[0].node_count() == 0 ==> length == 0
                    &&& start.runs[0].node_count() > 0 ==> length >= 1
                        && !final(self).engine@.runs[0].active
                    &&& forall|k: nat|
                        1 <= k < length ==> (#[trigger] start.after_ticks(k)).runs[0].active
                    &&& order@ == node_places(final(self).engine@.order)
                    &&& final(self).log.node_logs@ == final(self).engine@.events
                    &&& final(self).log.processor_log.core_logs@ == final(self).engine@.busy
                    &&& forall|c: int|
                        0 <= c < final(self).log.processor_log.core_logs@.len() ==> 0 <= (
                        #[trigger] final(self).log.processor_log.core_logs@[c]).total_proc_time
                            <= final(self).engine.current_time
                },
                Err(e) => {
                    let start = old(self).engine@;
                    let ticks = (start.horizon - start.time) as nat;
                    &&& e == CustomError::HorizonExceeded
                    &&& start.runs[0].node_count() > 0
                    &&& final(self).engine@ == start.after_ticks(ticks)
                    &&& forall|k: nat|
                        1 <= k <= ticks ==> (#[trigger] start.after_ticks(k)).runs[0].active
                },
            },
    {
        let ghost start = self.engine@;
        let begin = self.engine.current_time;
        let mut done = self.engine.runs[0].dag.node_count() == 0;
        assert(start.runs[0].wf(0));
        while !done && self.engine.current_time < self.engine.horizon
            invariant
                self.wf(),
                self.log == old(self).log,
                begin == start.time,
                start == old(self).engine@,
                self.engine.horizon == start.horizon,
                begin <= self.engine.current_time <= self.engine.horizon,
                self.engine@ == start.after_ticks((self.engine.current_time - begin) as nat),
                start.runs[0].node_count() == 0 ==> done && self.engine.current_time == begin,
                done && start.runs[0].node_count() > 0 ==> self.engine.current_time > begin
                    && !self.engine@.runs[0].active,
                forall|k: nat|
                    1 <= k < self.engine.current_time - begin ==> (#[trigger] start.after_ticks(
                        k,
                    )).runs[0].active,
                !done && self.engine.current_time > begin ==> self.engine@.runs[0].active,
            decreases
                    if done {
                        0
                    } else {
                        1 + self.engine.horizon - self.engine.current_time
                    },
        {
            self.engine.tick();
            if !self.engine.runs[0].active {
                done = true;
            }
        }
        if !done {
            proof {
                if start.is_fresh() {
                    let k = start.lemma_run_ends();
                    assert(start.after_ticks(k).runs[0].active);
                }
            }
            return Err(CustomError::HorizonExceeded);
        }
        let length = self.engine.current_time - begin;
        proof {
            if start.is_fresh() && start.runs[0].node_count() > 0 {
                start.lemma_run_length_is_latest_finish(length as nat);
            }
        }
        let mut order: Vec<usize> = Vec::new();
        let mut i: usize = 0;
        while i < self.engine.execution_order.len()
            invariant
                i <= self.engine.execution_order@.len(),
                order@ == node_places(self.engine.execution_order@.subrange(0, i as int)),
            decreases self.engine.execution_order@.len() - i,
        {
            order.push(self.engine.execution_order[i].1);
            assert(order@ =~= node_places(self.engine.execution_order@.subrange(0, i + 1)));
            i += 1;
        }
        assert(self.engine.execution_order@.subrange(0, self.engine.execution_order@.len() as int)
            =~= self.engine.execution_order@);
        let mut events = Vec::new();
        let mut j: usize = 0;
        while j < self.engine.events.len()
            invariant
                j <= self.engine.events@.len(),
                events@ == self.engine.events@.subrange(0, j as int),
            decreases self.engine.events@.len() - j,
        {
            events.push(self.engine.events[j]);
            assert(events@ =~= self.engine.events@.subrange(0, j + 1));
            j += 1;
        }
        assert(self.engine.events@.subrange(0, self.engine.events@.len() as int)
            =~= self.engine.events@);
        let mut busy: Vec<CoreLog> = Vec::new();
        let mut c: usize = 0;
        while c < self.engine.busy.len()
            invariant
                c <= self.engine.busy@.len(),
                busy@ == self.engine.busy@.subrange(0, c as int),
            decreases self.engine.busy@.len() - c,
        {
            busy.push(self.engine.busy[c]);
            assert(busy@ =~= self.engine.busy@.subrange(0, c + 1));
            c += 1;
        }
        assert(self.engine.busy@.subrange(0, self.engine.busy@.len() as int) =~= self.engine.busy@);
        self.log.node_logs = events;
        self.log.processor_log = ProcessorLog { core_logs: busy };
        Ok((length, order))
    }

    /// The record of the run.
    pub fn get_log(&self) -> (log: &DAGSchedulerLog)
        ensures
            *log == self.log,
    {
        &self.log
    }
}

} // verus!
