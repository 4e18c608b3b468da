//! Federated allocation: tasks that cannot do without cores of their own
//! get them, and the others share what is left.

use crate::engine::{DagRun, SchedulerEngine};
use crate::engine_model::{EngineView, NodeState, PreemptiveType};
use crate::engine_setup::hold_fault;
use crate::fixed_priority_scheduler::FixedPriorityScheduler;
use crate::graph_extension::{CustomError, Dag};
use crate::log::{all_wf, DAGInfo};
use crate::processor::{Core, HomogeneousProcessor};
use vstd::prelude::*;

verus! {

/// Whether a task gets cores of its own.
#[derive(Debug, Clone, Copy, PartialEq, Eq, Structural)]
pub enum DagClassification {
    Heavy,
    Light,
}

/// What one task is given: its class, the number of cores of its own, and
/// the deadline it is held to.
#[derive(Debug, Clone, Copy, PartialEq, Eq, Structural)]
pub struct DagAllocation {
    pub classification: DagClassification,
    pub cores: usize,
    pub deadline: i32,
}

/// What became of one task: what it was given, and when its run ended, if
/// it did. A heavy task runs alone on its own cores; a light task runs with
/// the other light tasks on the shared cores.
#[derive(Debug, Clone, Copy, PartialEq, Eq, Structural)]
pub struct DagRecord {
    pub allocation: DagAllocation,
    pub schedule_length: Option<i32>,
}

/// The outcome for a set of tasks.
#[derive(Debug)]
pub struct FederatedResult {
    pub feasible: bool,
    pub records: Vec<DagRecord>,
    pub shared_cores: usize,
}

/// Whether the utilization, the length of the longest path over the
/// deadline, is more than 1.
pub open spec fn utilization_exceeds_one(critical_path_length: int, deadline: int) -> bool
    recommends
        deadline > 0,
{
    critical_path_length > deadline
}

/// Heavy where the utilization is more than 1, light otherwise.
pub open spec fn classification_of(critical_path_length: int, deadline: int) -> DagClassification {
    if utilization_exceeds_one(critical_path_length, deadline) {
        DagClassification::Heavy
    } else {
        DagClassification::Light
    }
}

/// `a / b`, rounded up.
pub open spec fn ceil_div(a: int, b: int) -> int
    recommends
        a >= 0,
        b > 0,
{
    (a + b - 1) / b
}

/// The work that a task has beside its longest path; none where the
/// longest path, which counts communication too, outweighs the volume.
pub open spec fn work_off_path(volume: int, critical_path_length: int) -> int {
    if volume > critical_path_length {
        volume - critical_path_length
    } else {
        0
    }
}

/// The least number of cores on which a task alone meets its deadline under
/// any work-conserving list scheduler: the work off the longest path over
/// the time the deadline leaves beside it, rounded up. There is no such
/// number where the longest path leaves no time.
pub open spec fn dedicated_cores_needed(
    volume: int,
    critical_path_length: int,
    deadline: int,
) -> Option<int> {
    if deadline > critical_path_length {
        Some(
            ceil_div(
                work_off_path(volume, critical_path_length),
                deadline - critical_path_length,
            ),
        )
    } else {
        None
    }
}

/// The quotient rounded up is the least multiplier of `b` that reaches `a`.
pub proof fn lemma_ceil_div(a: int, b: int)
    requires
        a >= 0,
        b > 0,
    ensures
        ceil_div(a, b) >= 0,
        ceil_div(a, b) * b >= a,
        (ceil_div(a, b) - 1) * b < a,
        ceil_div(a, b) <= a,
{
    let k = ceil_div(a, b);
    assert(k * b <= a + b - 1 < k * b + b && k >= 0) by (nonlinear_arith)
        requires
            k == (a + b - 1) / b,
            a >= 0,
            b > 0,
    ;
    assert(k * b >= a && (k - 1) * b < a) by (nonlinear_arith)
        requires
            k * b <= a + b - 1 < k * b + b,
            b > 0,
    ;
    assert(k <= a) by (nonlinear_arith)
        requires
            (k - 1) * b < a,
            b >= 1,
            k >= 0,
            a >= 0,
    ;
}

/// A task with more work than its deadline has time, and a longest path
/// that leaves time, needs two cores or more.
pub proof fn lemma_overloaded_task_needs_two_cores(
    volume: int,
    critical_path_length: int,
    deadline: int,
)
    requires
        0 <= critical_path_length < deadline < volume,
    ensures
        dedicated_cores_needed(volume, critical_path_length, deadline) is Some,
        dedicated_cores_needed(volume, critical_path_length, deadline)->0 >= 2,
{
    let a = volume - critical_path_length;
    let b = deadline - critical_path_length;
    lemma_ceil_div(a, b);
    assert(ceil_div(a, b) >= 2) by (nonlinear_arith)
        requires
            ceil_div(a, b) * b >= a,
            a > b,
            b > 0,
    ;
}

/// A task is heavy exactly when its utilization is more than 1, and light
/// exactly when it is not.
pub proof fn lemma_classification(critical_path_length: int, deadline: int)
    requires
        deadline > 0,
    ensures
        utilization_exceeds_one(critical_path_length, deadline) <==> classification_of(
            critical_path_length,
            deadline,
        ) == DagClassification::Heavy,
        !utilization_exceeds_one(critical_path_length, deadline) <==> classification_of(
            critical_path_length,
            deadline,
        ) == DagClassification::Light,
{
}

/// Heavy where `critical_path_length / deadline > 1`, light otherwise.
pub fn classify(critical_path_length: i32, deadline: i32) -> (class: DagClassification)
    requires
        deadline > 0,
    ensures
        class == classification_of(critical_path_length as int, deadline as int),
{
    if critical_path_length > deadline {
        DagClassification::Heavy
    } else {
        DagClassification::Light
    }
}

/// The number of dedicated cores that a task needs, if any number is
/// enough.
pub fn dedicated_cores(volume: i32, critical_path_length: i32, deadline: i32) -> (cores: Option<
    usize,
>)
    requires
        0 <= critical_path_length,
        0 <= volume,
    ensures
        match cores {
            Some(k) => dedicated_cores_needed(
                volume as int,
                critical_path_length as int,
                deadline as int,
            ) == Some(k as int),
            None => dedicated_cores_needed(
                volume as int,
                critical_path_length as int,
                deadline as int,
            ) is None,
        },
{
    if deadline <= critical_path_length {
        return None;
    }
    let a: i64 = if volume > critical_path_length {
        volume as i64 - critical_path_length as i64
    } else {
        0
    };
    let b: i64 = deadline as i64 - critical_path_length as i64;
    proof {
        lemma_ceil_div(a as int, b as int);
    }
    let k: i64 = (a + b - 1) / b;
    Some(k as usize)
}

impl Dag {
    /// The deadline that the task is held to: its end-to-end deadline, and
    /// its period where it has none.
    pub open spec fn deadline(&self) -> Option<i32> {
        match self.end_to_end_deadline() {
            Some(d) => Some(d),
            None => self.head_period(),
        }
    }

    /// The deadline that the task is held to.
    pub fn get_deadline(&self) -> (deadline: Option<i32>)
        requires
            self.wf(),
        ensures
            deadline == self.deadline(),
    {
        match self.get_end_to_end_deadline() {
            Some(d) => Some(d),
            None => self.get_head_period(),
        }
    }

    /// What the task is given where `remaining` cores are left, or why it
    /// can be given nothing: the fault of its description; else
    /// `MissingDeadline` where it has neither deadline nor period; else
    /// `NonPositivePeriod` where its deadline is not positive; else, for a
    /// heavy task, `InsufficientCores` with its number `d` where it needs more
    /// cores than are left, or where no number of cores is enough.
    pub open spec fn allocation(&self, remaining: int, d: int) -> Result<
        DagAllocation,
        CustomError,
    > {
        match self.info_fault() {
            Some(e) => Err(e),
            None => match self.deadline() {
                None => Err(CustomError::MissingDeadline),
                Some(deadline) => if deadline <= 0 {
                    Err(CustomError::NonPositivePeriod)
                } else if classification_of(self.critical_path_length(), deadline as int)
                    == DagClassification::Heavy {
                    match dedicated_cores_needed(
                        self.volume(),
                        self.critical_path_length(),
                        deadline as int,
                    ) {
                        Some(k) => if k <= remaining {
                            Ok(
                                DagAllocation {
                                    classification: DagClassification::Heavy,
                                    cores: k as usize,
                                    deadline,
                                },
                            )
                        } else {
                            Err(CustomError::InsufficientCores(d as usize))
                        },
                        None => Err(CustomError::InsufficientCores(d as usize)),
                    }
                } else {
                    Ok(
                        DagAllocation {
                            classification: DagClassification::Light,
                            cores: 0,
                            deadline,
                        },
                    )
                },
            },
        }
    }

    /// Classifies the task, which is number `d` of its set, and counts the
    /// cores of its own that it needs.
    pub fn allocate_cores(&self, remaining: usize, d: usize) -> (given: Result<
        DagAllocation,
        CustomError,
    >)
        requires
            self.wf(),
        ensures
            given == self.allocation(remaining as int, d as int),
    {
        let info = match DAGInfo::new(self) {
            Ok(info) => info,
            Err(e) => {
                return Err(e);
            },
        };
        let deadline = match self.get_deadline() {
            Some(d) => d,
            None => {
                return Err(CustomError::MissingDeadline);
            },
        };
        if deadline <= 0 {
            return Err(CustomError::NonPositivePeriod);
        }
        match classify(info.critical_path_length, deadline) {
            DagClassification::Light => Ok(
                DagAllocation { classification: DagClassification::Light, cores: 0, deadline },
            ),
            DagClassification::Heavy => {
                proof {
                    self.lemma_volume_monotone(0, self.nodes@.len() as int);
                    self.lemma_max_finish_nonnegative(
                        self.earliest_starts(),
                        self.nodes@.len() as int,
                    );
                }
                match dedicated_cores(info.volume, info.critical_path_length, deadline) {
                    Some(k) => {
                        if k <= remaining {
                            Ok(
                                DagAllocation {
                                    classification: DagClassification::Heavy,
                                    cores: k,
                                    deadline,
                                },
                            )
                        } else {
                            Err(CustomError::InsufficientCores(d))
                        }
                    },
                    None => Err(CustomError::InsufficientCores(d)),
                }
            },
        }
    }
}

/// What the first `upto` tasks of `dag_set` are given out of `total_cores`
/// cores, task by task, and how many cores are left; or the fault of the
/// first task that can be given nothing.
pub open spec fn plan_upto(dag_set: Seq<Dag>, total_cores: int, upto: int) -> Result<
    (Seq<DagAllocation>, int),
    CustomError,
>
    decreases upto,
{
    if upto <= 0 {
        Ok((Seq::empty(), total_cores))
    } else {
        match plan_upto(dag_set, total_cores, upto - 1) {
            Err(e) => Err(e),
            Ok((given, remaining)) => match dag_set[upto - 1].allocation(remaining, upto - 1) {
                Err(e) => Err(e),
                Ok(a) => Ok((given.push(a), remaining - a.cores)),
            },
        }
    }
}

/// Classifies every task of `dag_set` and reserves the cores of its own
/// that each heavy task needs, in the order of the set. Returns what each
/// task is given and how many cores are left to share. Nothing is given to
/// any task when one of them can be given nothing.
pub fn federated_plan(dag_set: &Vec<Dag>, total_cores: usize) -> (plan: Result<
    (Vec<DagAllocation>, usize),
    CustomError,
>)
    requires
        all_wf(dag_set@),
    ensures
        match plan {
            Ok((given, remaining)) => plan_upto(
                dag_set@,
                total_cores as int,
                dag_set@.len() as int,
            ) == Ok::<(Seq<DagAllocation>, int), CustomError>((given@, remaining as int)),
            Err(e) => plan_upto(dag_set@, total_cores as int, dag_set@.len() as int) == Err::<
                (Seq<DagAllocation>, int),
                CustomError,
            >(e),
        },
{
    let mut given: Vec<DagAllocation> = Vec::new();
    let mut remaining: usize = total_cores;
    let mut d: usize = 0;
    while d < dag_set.len()
        invariant
            all_wf(dag_set@),
            d <= dag_set@.len(),
            plan_upto(dag_set@, total_cores as int, d as int) == Ok::<
                (Seq<DagAllocation>, int),
                CustomError,
            >((given@, remaining as int)),
        decreases dag_set@.len() - d,
    {
        assert(dag_set@[d as int].wf());
        match dag_set[d].allocate_cores(remaining, d) {
            Ok(a) => {
                given.push(a);
                remaining = remaining - a.cores;
            },
            Err(e) => {
                proof {
                    lemma_plan_fault_stays(dag_set@, total_cores as int, d + 1, dag_set@.len() as int);
                }
                return Err(e);
            },
        }
        d += 1;
    }
    Ok((given, remaining))
}

/// A plan that has failed stays failed, with the same fault.
pub proof fn lemma_plan_fault_stays(dag_set: Seq<Dag>, total_cores: int, failed: int, upto: int)
    requires
        0 < failed <= upto,
        plan_upto(dag_set, total_cores, failed) is Err,
    ensures
        plan_upto(dag_set, total_cores, upto) == plan_upto(dag_set, total_cores, failed),
    decreases upto,
{
    if failed < upto {
        lemma_plan_fault_stays(dag_set, total_cores, failed, upto - 1);
    }
}

/// Whether every task met its deadline: its run ended, and no later than
/// its deadline.
pub open spec fn all_in_time(records: Seq<DagRecord>) -> bool {
    forall|d: int|
        0 <= d < records.len() ==> (#[trigger] records[d]).schedule_length is Some
            && records[d].schedule_length->0 <= records[d].allocation.deadline
}

/// The verdict on a set of tasks: feasible exactly when every task met its
/// deadline.
pub fn federated_verdict(records: &Vec<DagRecord>) -> (feasible: bool)
    ensures
        feasible == all_in_time(records@),
{
    let mut d: usize = 0;
    while d < records.len()
        invariant
            d <= records@.len(),
            forall|j: int|
                0 <= j < d ==> (#[trigger] records@[j]).schedule_length is Some
                    && records@[j].schedule_length->0 <= records@[j].allocation.deadline,
        decreases records@.len() - d,
    {
        match records[d].schedule_length {
            Some(length) => {
                if length > records[d].allocation.deadline {
                    return false;
                }
            },
            None => {
                return false;
            },
        }
        d += 1;
    }
    true
}

/// Why the run of task number `d` cannot be set up with what it is given,
/// if it cannot: for a heavy task, why it cannot be run alone on its cores;
/// else why the engine cannot hold it.
pub open spec fn setup_fault(dag: Dag, d: int, given: DagAllocation) -> Option<CustomError> {
    if given.classification == DagClassification::Heavy && dag.run_fault(given.cores as int)
        is Some {
        dag.run_fault(given.cores as int)
    } else {
        hold_fault(dag, d)
    }
}

/// The fault of the first task, from `from` on, whose run cannot be set up.
pub open spec fn first_setup_fault(dag_set: Seq<Dag>, plan: Seq<DagAllocation>, from: int) -> Option<
    CustomError,
>
    decreases dag_set.len() - from,
{
    if from < 0 || from >= dag_set.len() {
        None
    } else if setup_fault(dag_set[from], from, plan[from]) is Some {
        setup_fault(dag_set[from], from, plan[from])
    } else {
        first_setup_fault(dag_set, plan, from + 1)
    }
}

/// The largest deadline among the first `upto` tasks of `plan` that are
/// light, and 0 if there is none.
pub open spec fn light_horizon_upto(plan: Seq<DagAllocation>, upto: int) -> i32
    decreases upto,
{
    if upto <= 0 {
        0
    } else {
        let rest = light_horizon_upto(plan, upto - 1);
        if plan[upto - 1].classification == DagClassification::Light && plan[upto - 1].deadline
            > rest {
            plan[upto - 1].deadline
        } else {
            rest
        }
    }
}

/// The largest deadline among the light tasks of `plan`, and 0 if there is
/// none.
pub fn light_horizon(plan: &Vec<DagAllocation>) -> (horizon: i32)
    ensures
        horizon == light_horizon_upto(plan@, plan@.len() as int),
        horizon >= 0,
{
    let mut horizon: i32 = 0;
    let mut d: usize = 0;
    while d < plan.len()
        invariant
            d <= plan@.len(),
            horizon >= 0,
            horizon == light_horizon_upto(plan@, d as int),
        decreases plan@.len() - d,
    {
        let a = plan[d];
        match a.classification {
            DagClassification::Light => {
                if a.deadline > horizon {
                    horizon = a.deadline;
                }
            },
            DagClassification::Heavy => {},
        }
        d += 1;
    }
    horizon
}

/// Whether `start` is an engine about to run `dag` alone on `cores` idle
/// cores of its own, as a fixed-priority scheduler for it starts.
pub open spec fn starts_alone(start: EngineView, dag: Dag, cores: int) -> bool {
    &&& start.is_fresh()
    &&& start.runs[0].dag.nodes@ == dag.nodes@
    &&& start.runs[0].dag.edges@ == dag.edges@
    &&& start.horizon == dag.run_bound()
    &&& start.cores.len() == cores
    &&& start.events.len() == 0
    &&& start.order.len() == 0
}

/// Whether the run from `start` of its one task ends with tick number
/// `length`: the task is under way after every tick before that one and not
/// after it; a task without nodes takes no tick.
pub open spec fn ends_after(start: EngineView, length: int) -> bool {
    &&& length >= 0
    &&& start.runs[0].node_count() == 0 ==> length == 0
    &&& start.runs[0].node_count() > 0 ==> length >= 1 && !start.after_ticks(
        length as nat,
    ).runs[0].active
    &&& forall|k: nat| 1 <= k < length ==> (#[trigger] start.after_ticks(k)).runs[0].active
}

/// Whether `length` is the length of the run of `dag` alone on `cores`
/// cores.
pub open spec fn is_isolated_length(dag: Dag, cores: int, length: Option<i32>) -> bool {
    length is Some && exists|start: EngineView| #[trigger]
        starts_alone(start, dag, cores) && ends_after(start, length->0 as int)
}

/// Whether `start` is an engine about to run the light tasks of `dag_set`
/// together, each released once at time 0, on `shared` idle cores that
/// belong to nobody, up to `horizon`. The heavy tasks are held and never
/// released.
pub open spec fn starts_pool(
    start: EngineView,
    dag_set: Seq<Dag>,
    plan: Seq<DagAllocation>,
    shared: int,
    horizon: int,
) -> bool {
    &&& start.wf()
    &&& start.runs.len() == dag_set.len()
    &&& forall|d: int|
        0 <= d < dag_set.len() ==> {
            let r = #[trigger] start.runs[d];
            &&& r.dag.nodes@ == dag_set[d].nodes@
            &&& r.dag.edges@ == dag_set[d].edges@
            &&& !r.heavy
            &&& r.period is None
            &&& r.next_release == if plan[d].classification == DagClassification::Light {
                Some(0i32)
            } else {
                None
            }
            &&& !r.active
            &&& r.job_id == 0
            &&& r.backlog == 0
            &&& r.states == Seq::new(dag_set[d].nodes@.len(), |v: int| NodeState::Finished)
            &&& r.finish_times == Seq::new(dag_set[d].nodes@.len(), |v: int| 0i32)
            &&& r.release_times.len() == 0
            &&& r.finish_log.len() == 0
        }
    &&& start.cores == Seq::new(shared as nat, |c: int| Core::idle())
    &&& start.owners == Seq::new(shared as nat, |c: int| None::<usize>)
    &&& start.policy == PreemptiveType::NonPreemptive
    &&& start.horizon == horizon
    &&& start.time == 0
    &&& start.queue.len() == 0
    &&& start.events.len() == 0
    &&& start.order.len() == 0
}

/// When the first instance of a task finished, if it did.
pub open spec fn first_finish(finish_log: Seq<i32>) -> Option<i32> {
    if finish_log.len() > 0 {
        Some(finish_log[0])
    } else {
        None
    }
}

/// Whether the records say of every task when its run ended: of a heavy
/// task, the length of its run alone on its own cores; of a light task, when
/// it finished in the run of the light tasks together on the shared cores,
/// if it did before the largest of their deadlines.
pub open spec fn records_runs(
    records: Seq<DagRecord>,
    dag_set: Seq<Dag>,
    plan: Seq<DagAllocation>,
    shared: int,
) -> bool {
    &&& forall|d: int|
        0 <= d < records.len() && plan[d].classification == DagClassification::Heavy
            ==> is_isolated_length(
            dag_set[d],
            plan[d].cores as int,
            (#[trigger] records[d]).schedule_length,
        )
    &&& exists|start: EngineView| #[trigger]
        starts_pool(
            start,
            dag_set,
            plan,
            shared,
            light_horizon_upto(plan, plan.len() as int) as int,
        ) && forall|d: int|
            0 <= d < records.len() && plan[d].classification == DagClassification::Light ==> (
            #[trigger] records[d]).schedule_length == first_finish(
                start.after_ticks(light_horizon_upto(plan, plan.len() as int) as nat).runs[d].finish_log,
            )
}

/// Federated allocation of `dag_set` on `total_cores` cores. Every task
/// is classified and the heavy tasks are given cores of their own as
/// `federated_plan` says. Each heavy task is then run alone on its cores,
/// and the light tasks are run together on the cores that are left, each
/// released once, at time 0, in the order of the priorities that their nodes
/// carry. The record of a task says when its run ended. The set is feasible
/// exactly when the run of every task ended no later than its deadline.
///
/// Fails as `federated_plan` does, with the same fault; and where the plan
/// succeeds, exactly when the run of some task cannot be set up, with the
/// fault of the first such task.
pub fn federated(dag_set: &Vec<Dag>, total_cores: usize) -> (result: Result<
    FederatedResult,
    CustomError,
>)
    requires
        all_wf(dag_set@),
    ensures
        match result {
            Ok(r) => {
                let plan = plan_upto(dag_set@, total_cores as int, dag_set@.len() as int);
                &&& plan is Ok
                &&& r.records@.len() == dag_set@.len()
                &&& r.records@.len() == plan->Ok_0.0.len()
                &&& forall|d: int|
                    0 <= d < r.records@.len() ==> (#[trigger] r.records@[d]).allocation
                        == plan->Ok_0.0[d]
                &&& r.shared_cores == plan->Ok_0.1
                &&& records_runs(r.records@, dag_set@, plan->Ok_0.0, plan->Ok_0.1)
                &&& r.feasible == all_in_time(r.records@)
            },
            Err(e) => {
                let plan = plan_upto(dag_set@, total_cores as int, dag_set@.len() as int);
                match plan {
                    Err(fault) => e == fault,
                    Ok((given, _)) => first_setup_fault(dag_set@, given, 0) == Some(e),
                }
            },
        },
        result is Ok <==> {
            let plan = plan_upto(dag_set@, total_cores as int, dag_set@.len() as int);
            plan is Ok && first_setup_fault(dag_set@, plan->Ok_0.0, 0) is None
        },
{
    let n = dag_set.len();
    let (plan, shared) = match federated_plan(dag_set, total_cores) {
        Ok(p) => p,
        Err(e) => {
            return Err(e);
        },
    };
    proof {
        lemma_plan_gives_all(dag_set@, total_cores as int, n as int);
    }
    let horizon = light_horizon(&plan);
    let mut runs: Vec<DagRun> = Vec::new();
    let mut records: Vec<DagRecord> = Vec::new();
    let mut d: usize = 0;
    while d < n
        invariant
            all_wf(dag_set@),
            n == dag_set@.len(),
            plan@.len() == n,
            d <= n,
            runs@.len() == d,
            records@.len() == d,
            plan_upto(dag_set@, total_cores as int, n as int) == Ok::<
                (Seq<DagAllocation>, int),
                CustomError,
            >((plan@, shared as int)),
            first_setup_fault(dag_set@, plan@, 0) == first_setup_fault(dag_set@, plan@, d as int),
            forall|j: int| 0 <= j < d ==> (#[trigger] runs@[j])@.wf(j),
            forall|j: int| 0 <= j < d ==> (#[trigger] records@[j]).allocation == plan@[j],
            forall|j: int|
                0 <= j < d ==> {
                    let r = #[trigger] runs@[j];
                    &&& r.dag.nodes@ == dag_set@[j].nodes@
                    &&& r.dag.edges@ == dag_set@[j].edges@
                    &&& !r.heavy
                    &&& r.period is None
                    &&& r.next_release == if plan@[j].classification == DagClassification::Light {
                        Some(0i32)
                    } else {
                        None
                    }
                    &&& !r.active
                    &&& r.job_id == 0
                    &&& r.backlog == 0
                    &&& r.states@ == Seq::new(
                        dag_set@[j].nodes@.len(),
                        |v: int| NodeState::Finished,
                    )
                    &&& r.finish_times@ == Seq::new(dag_set@[j].nodes@.len(), |v: int| 0i32)
                    &&& r.release_times@.len() == 0
                    &&& r.finish_log@.len() == 0
                },
            forall|j: int|
                0 <= j < d && plan@[j].classification == DagClassification::Heavy
                    ==> is_isolated_length(
                    dag_set@[j],
                    plan@[j].cores as int,
                    (#[trigger] records@[j]).schedule_length,
                ),
            forall|j: int|
                0 <= j < d && plan@[j].classification == DagClassification::Light ==> (
                #[trigger] records@[j]).schedule_length is None,
        decreases n - d,
    {
        assert(dag_set@[d as int].wf());
        let given = plan[d];
        let mut schedule_length: Option<i32> = None;
        let first_release = match given.classification {
            DagClassification::Heavy => {
                let processor = HomogeneousProcessor::new(given.cores);
                let mut scheduler = match FixedPriorityScheduler::new(&dag_set[d], &processor) {
                    Ok(s) => s,
                    Err(e) => {
                        return Err(e);
                    },
                };
                let ghost start = scheduler.engine@;
                assert(starts_alone(start, dag_set@[d as int], given.cores as int)) by {
                    assert(start.runs[0] == scheduler.engine.runs@[0]@);
                }
                match scheduler.schedule() {
                    Ok((length, _)) => {
                        schedule_length = Some(length);
                        assert(ends_after(start, length as int));
                    },
                    Err(_) => {},
                }
                None
            },
            DagClassification::Light => Some(0),
        };
        let run = match DagRun::new(&dag_set[d], d, false, None, first_release) {
            Ok(run) => run,
            Err(e) => {
                return Err(e);
            },
        };
        runs.push(run);
        records.push(DagRecord { allocation: given, schedule_length });
        d += 1;
    }
    let mut owners: Vec<Option<usize>> = Vec::new();
    let mut c: usize = 0;
    while c < shared
        invariant
            c <= shared,
            owners@ == Seq::new(c as nat, |i: int| None::<usize>),
        decreases shared - c,
    {
        owners.push(None);
        assert(owners@ =~= Seq::new((c + 1) as nat, |i: int| None::<usize>));
        c += 1;
    }
    let ghost held = runs@;
    let mut pool = SchedulerEngine::new(runs, owners, PreemptiveType::NonPreemptive, horizon);
    let ghost start = pool@;
    proof {
        assert forall|j: int| 0 <= j < n implies {
            let r = #[trigger] start.runs[j];
            &&& r.dag.nodes@ == dag_set@[j].nodes@
            &&& r.finish_log.len() == 0
        } by {
            assert(start.runs[j] == held[j]@);
        }
        assert(starts_pool(start, dag_set@, plan@, shared as int, horizon as int)) by {
            assert forall|j: int| 0 <= j < dag_set@.len() implies {
                let r = #[trigger] start.runs[j];
                &&& r.dag.nodes@ == dag_set@[j].nodes@
                &&& r.dag.edges@ == dag_set@[j].edges@
                &&& !r.heavy
                &&& r.period is None
                &&& r.next_release == if plan@[j].classification == DagClassification::Light {
                    Some(0i32)
                } else {
                    None
                }
                &&& !r.active
                &&& r.job_id == 0
                &&& r.backlog == 0
                &&& r.states == Seq::new(dag_set@[j].nodes@.len(), |v: int| NodeState::Finished)
                &&& r.finish_times == Seq::new(dag_set@[j].nodes@.len(), |v: int| 0i32)
                &&& r.release_times.len() == 0
                &&& r.finish_log.len() == 0
            } by {
                assert(start.runs[j] == held[j]@);
            }
        }
    }
    pool.run_to_horizon();
    let mut d: usize = 0;
    while d < n
        invariant
            n == pool.runs@.len(),
            n == dag_set@.len(),
            plan@.len() == n,
            records@.len() == n,
            d <= n,
            horizon >= 0,
            pool@ == start.after_ticks(horizon as nat),
            forall|j: int| 0 <= j < n ==> (#[trigger] records@[j]).allocation == plan@[j],
            forall|j: int|
                0 <= j < n && plan@[j].classification == DagClassification::Heavy
                    ==> is_isolated_length(
                    dag_set@[j],
                    plan@[j].cores as int,
                    (#[trigger] records@[j]).schedule_length,
                ),
            forall|j: int|
                d <= j < n && plan@[j].classification == DagClassification::Light ==> (
                #[trigger] records@[j]).schedule_length is None,
            forall|j: int|
                0 <= j < d && plan@[j].classification == DagClassification::Light ==> (
                #[trigger] records@[j]).schedule_length == first_finish(pool@.runs[j].finish_log),
        decreases n - d,
    {
        let record = records[d];
        assert(pool@.runs[d as int] == pool.runs@[d as int]@);
        match record.allocation.classification {
            DagClassification::Light => {
                if pool.runs[d].finish_log.len() > 0 {
                    let ended = pool.runs[d].finish_log[0];
                    records[d] = DagRecord {
                        allocation: record.allocation,
                        schedule_length: Some(ended),
                    };
                }
            },
            DagClassification::Heavy => {},
        }
        d += 1;
    }
    let feasible = federated_verdict(&records);
    proof {
        assert(records_runs(records@, dag_set@, plan@, shared as int));
    }
    Ok(FederatedResult { feasible, records, shared_cores: shared })
}

/// A plan that succeeds gives something to every task and leaves no
/// fewer than no cores.
pub proof fn lemma_plan_gives_all(dag_set: Seq<Dag>, total_cores: int, upto: int)
    requires
        0 <= upto <= dag_set.len(),
        total_cores >= 0,
        plan_upto(dag_set, total_cores, upto) is Ok,
    ensures
        plan_upto(dag_set, total_cores, upto)->Ok_0.0.len() == upto,
        plan_upto(dag_set, total_cores, upto)->Ok_0.1 >= 0,
    decreases upto,
{
    if upto > 0 {
        lemma_plan_gives_all(dag_set, total_cores, upto - 1);
    }
}

} // verus!
