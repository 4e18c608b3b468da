//! Dynamic federated scheduling: periodic tasks over a hyperperiod, with
//! the cores of a heavy task lent to the light tasks while it rests.

use crate::engine::{DagRun, SchedulerEngine};
use crate::engine_model::{EngineView, PreemptiveType};
use crate::engine_setup::{hold_fault, owners_in_bounds, runs_wf};
use crate::federated::{federated_plan, plan_upto, DagAllocation, DagClassification};
use crate::graph_extension::{CustomError, Dag};
use crate::log::{
    all_wf, closed_finishes, or_zero, events_of, lemma_worst_of, response_times, worst_of, CoreLog, DAGLog,
    DAGSetSchedulerLog, JobLog, ProcessorLog,
};
use crate::processor::HomogeneousProcessor;
use crate::util::{
    all_periodic, get_hyper_period, hyper_period_fault, is_hyper_period, periods_of,
};
use vstd::prelude::*;

verus! {

/// Who owns the cores that the first `upto` tasks of `plan` are given: the
/// cores of a task stand together, task after task.
pub open spec fn core_owners_upto(plan: Seq<DagAllocation>, upto: int) -> Seq<Option<usize>>
    decreases upto,
{
    if upto <= 0 {
        Seq::empty()
    } else {
        core_owners_upto(plan, upto - 1) + Seq::new(
            plan[upto - 1].cores as nat,
            |c: int| Some((upto - 1) as usize),
        )
    }
}

/// Who owns each core: first the cores of the tasks that have cores of
/// their own, then `shared` cores that belong to nobody.
pub open spec fn core_owners(plan: Seq<DagAllocation>, shared: int) -> Seq<Option<usize>> {
    core_owners_upto(plan, plan.len() as int) + Seq::new(shared as nat, |c: int| None::<usize>)
}

/// Every owner is one of the tasks of the plan.
pub proof fn lemma_core_owners_in_bounds(plan: Seq<DagAllocation>, upto: int)
    requires
        0 <= upto <= plan.len(),
    ensures
        owners_in_bounds(core_owners_upto(plan, upto), upto),
    decreases upto,
{
    if upto > 0 {
        lemma_core_owners_in_bounds(plan, upto - 1);
        let before = core_owners_upto(plan, upto - 1);
        let now = core_owners_upto(plan, upto);
        assert forall|c: int| 0 <= c < now.len() && (#[trigger] now[c]) is Some implies now[c]->0
            < upto by {
            if c < before.len() {
                assert(now[c] == before[c]);
            }
        }
    }
}

/// Names the owner of every core by `plan`, with `shared` cores left to
/// nobody.
pub fn assign_cores(plan: &Vec<DagAllocation>, shared: usize) -> (owners: Vec<Option<usize>>)
    ensures
        owners@ == core_owners(plan@, shared as int),
        owners_in_bounds(owners@, plan@.len() as int),
{
    let mut owners: Vec<Option<usize>> = Vec::new();
    let mut d: usize = 0;
    while d < plan.len()
        invariant
            d <= plan@.len(),
            owners@ == core_owners_upto(plan@, d as int),
        decreases plan@.len() - d,
    {
        let ghost before = owners@;
        let k = plan[d].cores;
        let mut c: usize = 0;
        while c < k
            invariant
                c <= k,
                d < plan@.len(),
                owners@ == before + Seq::new(c as nat, |i: int| Some(d)),
            decreases k - c,
        {
            owners.push(Some(d));
            assert(owners@ =~= before + Seq::new((c + 1) as nat, |i: int| Some(d)));
            c += 1;
        }
        assert(owners@ =~= core_owners_upto(plan@, d + 1));
        d += 1;
    }
    let ghost dedicated = owners@;
    let mut c: usize = 0;
    while c < shared
        invariant
            c <= shared,
            owners@ == dedicated + Seq::new(c as nat, |i: int| None::<usize>),
        decreases shared - c,
    {
        owners.push(None);
        assert(owners@ =~= dedicated + Seq::new((c + 1) as nat, |i: int| None::<usize>));
        c += 1;
    }
    proof {
        lemma_core_owners_in_bounds(plan@, plan@.len() as int);
        assert forall|c: int| 0 <= c < owners@.len() && (#[trigger] owners@[c]) is Some implies owners@[c]->0
            < plan@.len() by {
            if c < dedicated.len() {
                assert(owners@[c] == dedicated[c]);
            }
        }
    }
    owners
}

/// The fault of the first task, from `from` on, that the engine cannot
/// hold.
pub open spec fn first_run_fault(dag_set: Seq<Dag>, from: int) -> Option<CustomError>
    decreases dag_set.len() - from,
{
    if from < 0 || from >= dag_set.len() {
        None
    } else if hold_fault(dag_set[from], from) is Some {
        hold_fault(dag_set[from], from)
    } else {
        first_run_fault(dag_set, from + 1)
    }
}

/// Why a run of `dag_set` on `total_cores` cores cannot be set up, if it
/// cannot: why the set has no hyperperiod; else why the tasks cannot be
/// given their cores; else why the engine cannot hold one of the tasks.
pub open spec fn dynfed_fault(dag_set: Seq<Dag>, total_cores: int) -> Option<CustomError> {
    if hyper_period_fault(dag_set) is Some {
        hyper_period_fault(dag_set)
    } else {
        match plan_upto(dag_set, total_cores, dag_set.len() as int) {
            Err(e) => Some(e),
            Ok(_) => first_run_fault(dag_set, 0),
        }
    }
}

/// A scheduler for a set of periodic tasks: the engine that runs them to
/// their hyperperiod, what each task was given, and the record of the run.
#[derive(Debug)]
pub struct DynamicFederatedScheduler {
    pub engine: SchedulerEngine,
    pub plan: Vec<DagAllocation>,
    pub periods: Vec<i32>,
    pub log: DAGSetSchedulerLog,
}

/// Whether no instance took longer than the period of its task: the worst
/// response time of each of the first `upto` tasks is within its period.
pub open spec fn within_periods(logs: Seq<DAGLog>, periods: Seq<i32>, upto: int) -> bool {
    forall|d: int| 0 <= d < upto ==> (#[trigger] logs[d]).worst_response_time <= periods[d]
}

/// Where the worst response time of a task is within its period, every
/// instance of the task finished within one period of its release.
pub proof fn lemma_every_instance_within_period(log: DAGLog, period: i32)
    requires
        log.response_time@.map_values(|t: i32| t as int) == response_times(
            log.release_time@,
            log.finish_time@,
        ),
        log.worst_response_time == worst_of(log.response_time@, log.response_time@.len() as int),
        log.worst_response_time <= period,
    ensures
        forall|i: int|
            0 <= i < log.release_time@.len() && i < log.finish_time@.len() ==> (
            #[trigger] log.finish_time@[i]) - log.release_time@[i] <= period,
{
    let times = log.response_time@;
    let ints = times.map_values(|t: i32| t as int);
    assert(ints.len() == times.len());
    assert forall|i: int|
        0 <= i < log.release_time@.len() && i < log.finish_time@.len() implies (
    #[trigger] log.finish_time@[i]) - log.release_time@[i] <= period by {
        lemma_worst_of(times, times.len() as int);
        assert(ints[i] == times[i]);
        assert(times[i] <= worst_of(times, times.len() as int));
    }
}

impl DynamicFederatedScheduler {
    /// The engine is consistent and holds one task for each entry of the
    /// plan, of the periods and of the record.
    pub open spec fn wf(&self) -> bool {
        &&& self.engine@.wf()
        &&& self.engine.runs@.len() == self.plan@.len()
        &&& self.engine.runs@.len() == self.periods@.len()
    }

    /// A scheduler for `dag_set` on a processor with the cores of
    /// `processor`, at time 0, to run to the hyperperiod of the set. Every
    /// task is classified and given its cores as in federated allocation,
    /// once; every task is released first at time 0 and then at every
    /// multiple of its period.
    ///
    /// Fails exactly when the run cannot be set up, with the fault that
    /// `dynfed_fault` names.
    pub fn new(dag_set: &Vec<Dag>, processor: &HomogeneousProcessor) -> (scheduler: Result<
        DynamicFederatedScheduler,
        CustomError,
    >)
        requires
            all_wf(dag_set@),
        ensures
            match scheduler {
                Ok(s) => {
                    let total = processor.cores@.len() as int;
                    let count = dag_set@.len() as int;
                    &&& s.wf()
                    &&& all_periodic(dag_set@, count)
                    &&& is_hyper_period(s.engine.horizon as int, periods_of(dag_set@), count)
                    &&& plan_upto(dag_set@, total, count) is Ok
                    &&& s.plan@ == plan_upto(dag_set@, total, count)->Ok_0.0
                    &&& s.engine.owners@ == core_owners(
                        s.plan@,
                        plan_upto(dag_set@, total, count)->Ok_0.1,
                    )
                    &&& s.engine.runs@.len() == count
                    &&& s.engine.current_time == 0
                    &&& s.engine.policy == PreemptiveType::NonPreemptive
                    &&& s.engine.ready_queue@.len() == 0
                    &&& s.engine.events@.len() == 0
                    &&& s.log.processor_info.number_of_cores == total
                    &&& s.log.dag_set_info.each_dag_info@.len() == count
                    &&& forall|d: int|
                        0 <= d < count ==> {
                            let info = #[trigger] s.log.dag_set_info.each_dag_info@[d];
                            &&& info.critical_path_length == dag_set@[d].critical_path_length()
                            &&& info.volume == dag_set@[d].volume()
                            &&& info.period == or_zero(dag_set@[d].head_period())
                            &&& info.end_to_end_deadline == or_zero(
                                dag_set@[d].end_to_end_deadline(),
                            )
                        }
                    &&& s.log.dag_set_log@.len() == count
                    &&& s.log.node_set_logs@.len() == count
                    &&& forall|d: int|
                        0 <= d < count ==> (#[trigger] s.log.node_set_logs@[d])@.len() == 0
                    &&& forall|d: int|
                        0 <= d < count ==> (#[trigger] s.log.dag_set_log@[d]).release_time@.len()
                            == 0 && s.log.dag_set_log@[d].finish_time@.len() == 0
                    &&& s.log.processor_log.core_logs@ == Seq::new(
                        total as nat,
                        |i: int| (CoreLog { core_id: i as usize, total_proc_time: 0 }),
                    )
                    &&& forall|d: int|
                        0 <= d < count ==> {
                            let r = #[trigger] s.engine.runs@[d];
                            &&& r.dag.nodes@ == dag_set@[d].nodes@
                            &&& r.dag.edges@ == dag_set@[d].edges@
                            &&& r.heavy == (s.plan@[d].classification == DagClassification::Heavy)
                            &&& r.period == dag_set@[d].head_period()
                            &&& r.next_release == Some(0i32)
                            &&& !r.active
                            &&& r.job_id == 0
                            &&& r.backlog == 0
                            &&& s.periods@[d] == dag_set@[d].head_period()->0
                        }
                },
                Err(e) => dynfed_fault(dag_set@, processor.cores@.len() as int) == Some(e),
            },
            scheduler is Ok <==> dynfed_fault(dag_set@, processor.cores@.len() as int) is None,
    {
        let total = processor.get_number_of_cores();
        let n = dag_set.len();
        let horizon = match get_hyper_period(dag_set) {
            Ok(h) => h,
            Err(e) => {
                return Err(e);
            },
        };
        let (plan, shared) = match federated_plan(dag_set, total) {
            Ok(p) => p,
            Err(e) => {
                return Err(e);
            },
        };
        let log = match DAGSetSchedulerLog::new(dag_set, total) {
            Ok(log) => log,
            Err(e) => {
                proof {
                    lemma_plan_describes(dag_set@, total as int, n as int);
                }
                return Err(e);
            },
        };
        proof {
            lemma_plan_length(dag_set@, total as int, n as int);
        }
        let mut runs: Vec<DagRun> = Vec::new();
        let mut periods: Vec<i32> = Vec::new();
        let mut d: usize = 0;
        while d < n
            invariant
                all_wf(dag_set@),
                all_periodic(dag_set@, n as int),
                n == dag_set@.len(),
                plan@.len() == n,
                d <= n,
                hyper_period_fault(dag_set@) is None,
                total == processor.cores@.len(),
                plan_upto(dag_set@, total as int, n as int) is Ok,
                first_run_fault(dag_set@, 0) == first_run_fault(dag_set@, d as int),
                runs@.len() == d,
                periods@.len() == d,
                forall|j: int|
                    0 <= j < d ==> {
                        let r = #[trigger] runs@[j];
                        &&& r@.wf(j)
                        &&& r.dag.nodes@ == dag_set@[j].nodes@
                        &&& r.dag.edges@ == dag_set@[j].edges@
                        &&& r.heavy == (plan@[j].classification == DagClassification::Heavy)
                        &&& r.period == dag_set@[j].head_period()
                        &&& r.next_release == Some(0i32)
                        &&& !r.active
                        &&& r.job_id == 0
                        &&& r.backlog == 0
                        &&& periods@[j] == dag_set@[j].head_period()->0
                    },
            decreases n - d,
        {
            assert(dag_set@[d as int].wf());
            assert(dag_set@[d as int].head_period() is Some);
            let period = dag_set[d].get_head_period();
            let heavy = match plan[d].classification {
                DagClassification::Heavy => true,
                DagClassification::Light => false,
            };
            let run = match DagRun::new(&dag_set[d], d, heavy, period, Some(0)) {
                Ok(run) => run,
                Err(e) => {
                    assert(first_run_fault(dag_set@, d as int) == Some(e));
                    return Err(e);
                },
            };
            assert(first_run_fault(dag_set@, d as int) == first_run_fault(dag_set@, d + 1));
            runs.push(run);
            periods.push(
                match period {
                    Some(p) => p,
                    None => 0,
                },
            );
            d += 1;
        }
        let owners = assign_cores(&plan, shared);
        let engine = SchedulerEngine::new(runs, owners, PreemptiveType::NonPreemptive, horizon);
        Ok(DynamicFederatedScheduler { engine, plan, periods, log })
    }

    /// Runs the set to its hyperperiod under `policy` and says whether the
    /// run is feasible: whether, for every task, the worst response time is
    /// within the period. An instance that was released and did not finish
    /// counts as finished at `i32::MAX`. The run goes to the hyperperiod
    /// whatever the verdict is, and the record holds all of it.
    pub fn schedule(&mut self, policy: PreemptiveType) -> (feasible: bool)
        requires
            old(self).wf(),
        ensures
            final(self).wf(),
            final(self).plan@ == old(self).plan@,
            final(self).periods@ == old(self).periods@,
            final(self).log.dag_set_info.each_dag_info@ == old(self).log.dag_set_info.each_dag_info@,
            final(self).log.processor_info == old(self).log.processor_info,
            final(self).engine@ == (EngineView { policy, ..old(self).engine@ }).after_ticks(
                (old(self).engine.horizon - old(self).engine.current_time) as nat,
            ),
            final(self).engine.current_time == old(self).engine.horizon,
            final(self).log.dag_set_log@.len() == final(self).engine.runs@.len(),
            final(self).log.node_set_logs@.len() == final(self).engine.runs@.len(),
            final(self).log.processor_log.core_logs@ == final(self).engine@.busy,
            forall|c: int|
                0 <= c < final(self).log.processor_log.core_logs@.len() ==> 0 <= (
                #[trigger] final(self).log.processor_log.core_logs@[c]).total_proc_time
                    <= final(self).engine.current_time,
            forall|d: int|
                0 <= d < final(self).engine.runs@.len() ==> {
                    let r = final(self).engine@.runs[d];
                    let l = #[trigger] final(self).log.dag_set_log@[d];
                    &&& l.dag_id == d
                    &&& l.release_time@ == r.release_times
                    &&& l.finish_time@ == closed_finishes(r.release_times, r.finish_log)
                    &&& l.response_time@.map_values(|t: i32| t as int) == response_times(
                        l.release_time@,
                        l.finish_time@,
                    )
                    &&& l.worst_response_time == worst_of(
                        l.response_time@,
                        l.response_time@.len() as int,
                    )
                },
            forall|d: int|
                0 <= d < final(self).engine.runs@.len() ==> (
                #[trigger] final(self).log.node_set_logs@[d])@ == events_of(
                    final(self).engine@.events,
                    d,
                ),
            feasible == within_periods(
                final(self).log.dag_set_log@,
                final(self).periods@,
                final(self).periods@.len() as int,
            ),
            feasible ==> forall|d: int, i: int|
                0 <= d < final(self).engine.runs@.len() && 0 <= i < final(self).log.dag_set_log@[d].release_time@.len() && i < final(self).log.dag_set_log@[d].finish_time@.len() ==> (
                #[trigger] final(self).log.dag_set_log@[d].finish_time@[i]) - final(self).log.dag_set_log@[d].release_time@[i] <= final(self).periods@[d],
    {
        self.engine.policy = policy;
        self.engine.run_to_horizon();
        let n = self.engine.runs.len();
        let mut dag_set_log: Vec<DAGLog> = Vec::new();
        let mut node_set_logs: Vec<Vec<JobLog>> = Vec::new();
        let mut d: usize = 0;
        while d < n
            invariant
                self.engine@.wf(),
                n == self.engine.runs@.len(),
                d <= n,
                dag_set_log@.len() == d,
                node_set_logs@.len() == d,
                forall|j: int|
                    0 <= j < d ==> {
                        let l = #[trigger] dag_set_log@[j];
                        &&& l.wf()
                        &&& l.dag_id == j
                        &&& l.release_time@ == self.engine@.runs[j].release_times
                        &&& l.finish_time@ == self.engine@.runs[j].finish_log
                    },
                forall|j: int| 0 <= j < d ==> (#[trigger] node_set_logs@[j])@.len() == 0,
            decreases n - d,
        {
            assert(self.engine@.runs[d as int].wf(d as int));
            let mut log = DAGLog::new(d);
            let releases = self.engine.runs[d].release_times.len();
            let mut i: usize = 0;
            while i < releases
                invariant
                    self.engine@.wf(),
                    d < self.engine.runs@.len(),
                    releases == self.engine.runs@[d as int].release_times@.len(),
                    i <= releases,
                    log.dag_id == d,
                    log.finish_time@.len() == 0,
                    log.release_time@ == self.engine.runs@[d as int].release_times@.subrange(
                        0,
                        i as int,
                    ),
                decreases releases - i,
            {
                log.release_time.push(self.engine.runs[d].release_times[i]);
                assert(log.release_time@ =~= self.engine.runs@[d as int].release_times@.subrange(
                    0,
                    i + 1,
                ));
                i += 1;
            }
            assert(self.engine.runs@[d as int].release_times@.subrange(0, releases as int)
                =~= self.engine.runs@[d as int].release_times@);
            let finishes = self.engine.runs[d].finish_log.len();
            let mut i: usize = 0;
            while i < finishes
                invariant
                    self.engine@.wf(),
                    d < self.engine.runs@.len(),
                    finishes == self.engine.runs@[d as int].finish_log@.len(),
                    i <= finishes,
                    log.dag_id == d,
                    log.release_time@ == self.engine.runs@[d as int].release_times@,
                    log.finish_time@ == self.engine.runs@[d as int].finish_log@.subrange(
                        0,
                        i as int,
                    ),
                decreases finishes - i,
            {
                log.finish_time.push(self.engine.runs[d].finish_log[i]);
                assert(log.finish_time@ =~= self.engine.runs@[d as int].finish_log@.subrange(
                    0,
                    i + 1,
                ));
                i += 1;
            }
            assert(self.engine.runs@[d as int].finish_log@.subrange(0, finishes as int)
                =~= self.engine.runs@[d as int].finish_log@);
            assert(log.wf()) by {
                let r = self.engine@.runs[d as int];
                assert(r.wf(d as int));
                assert forall|i: int| 0 <= i < log.release_time@.len() implies (
                #[trigger] log.release_time@[i]) >= 0 by {
                    assert(r.release_times[i] >= 0);
                }
                assert forall|i: int| 0 <= i < log.finish_time@.len() implies (
                #[trigger] log.finish_time@[i]) >= 0 by {
                    assert(r.finish_log[i] >= 0);
                }
            }
            dag_set_log.push(log);
            node_set_logs.push(Vec::new());
            d += 1;
        }
        self.log.dag_set_log = dag_set_log;
        self.log.node_set_logs = node_set_logs;
        let count = self.engine.events.len();
        let mut j: usize = 0;
        assert forall|d: int| 0 <= d < n implies (#[trigger] self.log.node_set_logs@[d])@
            == events_of(self.engine.events@.subrange(0, 0), d) by {
            assert(self.log.node_set_logs@[d]@ =~= Seq::<JobLog>::empty());
        }
        while j < count
            invariant
                self.engine@.wf(),
                self.engine@ == (EngineView { policy, ..old(self).engine@ }).after_ticks(
                    (old(self).engine.horizon - old(self).engine.current_time) as nat,
                ),
                self.engine.current_time == old(self).engine.horizon,
                self.plan@ == old(self).plan@,
                self.periods@ == old(self).periods@,
                self.log.dag_set_info.each_dag_info@ == old(self).log.dag_set_info.each_dag_info@,
                self.log.processor_info == old(self).log.processor_info,
                n == self.engine.runs@.len(),
                n == old(self).engine.runs@.len(),
                count == self.engine.events@.len(),
                j <= count,
                self.log.node_set_logs@.len() == n,
                self.log.dag_set_log@.len() == n,
                forall|k: int|
                    0 <= k < n ==> {
                        let l = #[trigger] self.log.dag_set_log@[k];
                        &&& l.wf()
                        &&& l.dag_id == k
                        &&& l.release_time@ == self.engine@.runs[k].release_times
                        &&& l.finish_time@ == self.engine@.runs[k].finish_log
                    },
                forall|d: int|
                    0 <= d < n ==> (#[trigger] self.log.node_set_logs@[d])@ == events_of(
                        self.engine.events@.subrange(0, j as int),
                        d,
                    ),
            decreases count - j,
        {
            let event = self.engine.events[j];
            assert(self.engine@.events[j as int].dag_id < self.engine@.runs.len());
            let ghost before = self.log.node_set_logs@;
            self.log.write_job_log(event);
            proof {
                let head = self.engine.events@.subrange(0, j + 1);
                assert(head.drop_last() =~= self.engine.events@.subrange(0, j as int));
                assert(head.last() == event);
                assert forall|d: int| 0 <= d < n implies (#[trigger] self.log.node_set_logs@[d])@
                    == events_of(head, d) by {
                    if d != event.dag_id {
                        assert(self.log.node_set_logs@[d] == before[d]);
                    }
                }
            }
            j += 1;
        }
        assert(self.engine.events@.subrange(0, count as int) =~= self.engine.events@);
        let mut busy: Vec<CoreLog> = Vec::new();
        let mut c: usize = 0;
        while c < self.engine.busy.len()
            invariant
                c <= self.engine.busy@.len(),
                busy@ == self.engine.busy@.subrange(0, c as int),
            decreases self.engine.busy@.len() - c,
        {
            busy.push(self.engine.busy[c]);
            assert(busy@ =~= self.engine.busy@.subrange(0, c + 1));
            c += 1;
        }
        assert(self.engine.busy@.subrange(0, self.engine.busy@.len() as int) =~= self.engine.busy@);
        self.log.processor_log = ProcessorLog { core_logs: busy };
        self.log.calculate_response_time();
        let mut feasible = true;
        let mut d: usize = 0;
        while d < n
            invariant
                n == self.log.dag_set_log@.len(),
                n == self.periods@.len(),
                d <= n,
                feasible == within_periods(self.log.dag_set_log@, self.periods@, d as int),
            decreases n - d,
        {
            if self.log.dag_set_log[d].worst_response_time > self.periods[d] {
                feasible = false;
            }
            d += 1;
        }
        proof {
            if feasible {
                assert forall|d: int, i: int|
                    0 <= d < n && 0 <= i < self.log.dag_set_log@[d].release_time@.len() && i
                        < self.log.dag_set_log@[d].finish_time@.len() implies (
                #[trigger] self.log.dag_set_log@[d].finish_time@[i])
                    - self.log.dag_set_log@[d].release_time@[i] <= self.periods@[d] by {
                    assert(self.log.dag_set_log@[d].worst_response_time <= self.periods@[d]);
                    lemma_every_instance_within_period(
                        self.log.dag_set_log@[d],
                        self.periods@[d],
                    );
                }
            }
        }
        feasible
    }
}

/// A plan that succeeds gives something to every task.
pub proof fn lemma_plan_length(dag_set: Seq<Dag>, total_cores: int, upto: int)
    requires
        0 <= upto <= dag_set.len(),
        plan_upto(dag_set, total_cores, upto) is Ok,
    ensures
        plan_upto(dag_set, total_cores, upto)->Ok_0.0.len() == upto,
    decreases upto,
{
    if upto > 0 {
        lemma_plan_length(dag_set, total_cores, upto - 1);
    }
}

/// A plan succeeds only where every task can be described.
pub proof fn lemma_plan_describes(dag_set: Seq<Dag>, total_cores: int, upto: int)
    requires
        0 <= upto <= dag_set.len(),
        plan_upto(dag_set, total_cores, upto) is Ok,
    ensures
        forall|d: int| 0 <= d < upto ==> (#[trigger] dag_set[d]).info_fault() is None,
    decreases upto,
{
    if upto > 0 {
        lemma_plan_describes(dag_set, total_cores, upto - 1);
    }
}

} // verus!
