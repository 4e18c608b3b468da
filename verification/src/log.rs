//! What a run records: the events of every job, the busy time of every
//! core, and the release, finish and response times of every task.

use crate::graph_extension::{CustomError, Dag, NodeData};
use crate::timing::Path;
use vstd::prelude::*;

verus! {

/// Static description of one task.
#[derive(Debug, Clone, Copy, PartialEq, Eq, Structural)]
pub struct DAGInfo {
    pub critical_path_length: i32,
    pub period: i32,
    pub end_to_end_deadline: i32,
    pub volume: i32,
}

impl Dag {
    /// Why the graph cannot be described, if it cannot: `Cyclic` where its
    /// edges form a cycle; otherwise `Overflow` where some walk, or the
    /// volume, is more than an `i32` holds.
    pub open spec fn info_fault(&self) -> Option<CustomError> {
        if !self.is_acyclic() {
            Some(CustomError::Cyclic)
        } else if (exists|p: Path| self.is_path(p) && #[trigger] self.path_weight(p) > i32::MAX)
            || self.volume() > i32::MAX {
            Some(CustomError::Overflow)
        } else {
            None
        }
    }
}

/// What `limit` is when present, and 0 when absent.
pub open spec fn or_zero(limit: Option<i32>) -> i32 {
    match limit {
        Some(value) => value,
        None => 0,
    }
}

impl DAGInfo {
    /// Describes `dag`: the length of its longest path, its volume, and its
    /// period and end-to-end deadline, each 0 where the graph carries none.
    /// Fails as the timing analysis does, or with `Overflow` where the volume
    /// is more than an `i32` holds.
    pub fn new(dag: &Dag) -> (info: Result<DAGInfo, CustomError>)
        requires
            dag.wf(),
        ensures
            match info {
                Ok(i) => {
                    &&& i.critical_path_length == dag.critical_path_length()
                    &&& i.volume == dag.volume()
                    &&& i.period == or_zero(dag.head_period())
                    &&& i.end_to_end_deadline == or_zero(dag.end_to_end_deadline())
                },
                Err(e) => e == CustomError::Cyclic || e == CustomError::Overflow,
            },
            info is Ok <==> dag.info_fault() is None,
            info matches Err(e) ==> dag.info_fault() == Some(e),
    {
        let timing = match dag.calculate_timing() {
            Ok(t) => t,
            Err(e) => {
                return Err(e);
            },
        };
        let volume = match dag.get_volume() {
            Ok(v) => v,
            Err(e) => {
                return Err(e);
            },
        };
        let period = match dag.get_head_period() {
            Some(p) => p,
            None => 0,
        };
        let end_to_end_deadline = match dag.get_end_to_end_deadline() {
            Some(d) => d,
            None => 0,
        };
        Ok(
            DAGInfo {
                critical_path_length: timing.critical_path_length,
                period,
                end_to_end_deadline,
                volume,
            },
        )
    }
}

/// Static description of a set of tasks, in the order of the set.
#[derive(Debug, Clone)]
pub struct DAGSetInfo {
    pub each_dag_info: Vec<DAGInfo>,
}

/// The fault of the first task of `dag_set`, from `from` on, that cannot
/// be described.
pub open spec fn first_info_fault(dag_set: Seq<Dag>, from: int) -> Option<CustomError>
    decreases dag_set.len() - from,
{
    if from < 0 || from >= dag_set.len() {
        None
    } else if dag_set[from].info_fault() is Some {
        dag_set[from].info_fault()
    } else {
        first_info_fault(dag_set, from + 1)
    }
}

/// Whether every graph of `dag_set` is structurally valid.
pub open spec fn all_wf(dag_set: Seq<Dag>) -> bool {
    forall|i: int| 0 <= i < dag_set.len() ==> (#[trigger] dag_set[i]).wf()
}

impl DAGSetInfo {
    /// Describes every task of `dag_set`. Fails with the error of the first
    /// task that cannot be described.
    pub fn new(dag_set: &Vec<Dag>) -> (info: Result<DAGSetInfo, CustomError>)
        requires
            all_wf(dag_set@),
        ensures
            match info {
                Ok(set_info) => {
                    &&& set_info.each_dag_info@.len() == dag_set@.len()
                    &&& forall|i: int|
                        0 <= i < dag_set@.len() ==> {
                            let d = #[trigger] set_info.each_dag_info@[i];
                            &&& d.critical_path_length == dag_set@[i].critical_path_length()
                            &&& d.volume == dag_set@[i].volume()
                            &&& d.period == or_zero(dag_set@[i].head_period())
                            &&& d.end_to_end_deadline == or_zero(
                                dag_set@[i].end_to_end_deadline(),
                            )
                        }
                },
                Err(e) => e == CustomError::Cyclic || e == CustomError::Overflow,
            },
            info is Ok <==> forall|d: int|
                0 <= d < dag_set@.len() ==> (#[trigger] dag_set@[d]).info_fault() is None,
            info matches Err(e) ==> first_info_fault(dag_set@, 0) == Some(e),
    {
        let mut each_dag_info: Vec<DAGInfo> = Vec::new();
        let mut i: usize = 0;
        while i < dag_set.len()
            invariant
                all_wf(dag_set@),
                i <= dag_set@.len(),
                each_dag_info@.len() == i,
                forall|d: int| 0 <= d < i ==> (#[trigger] dag_set@[d]).info_fault() is None,
                first_info_fault(dag_set@, 0) == first_info_fault(dag_set@, i as int),
                forall|j: int|
                    0 <= j < i ==> {
                        let d = #[trigger] each_dag_info@[j];
                        &&& d.critical_path_length == dag_set@[j].critical_path_length()
                        &&& d.volume == dag_set@[j].volume()
                        &&& d.period == or_zero(dag_set@[j].head_period())
                        &&& d.end_to_end_deadline == or_zero(dag_set@[j].end_to_end_deadline())
                    },
            decreases dag_set@.len() - i,
        {
            assert(dag_set@[i as int].wf());
            match DAGInfo::new(&dag_set[i]) {
                Ok(info) => {
                    each_dag_info.push(info);
                },
                Err(e) => {
                    return Err(e);
                },
            }
            i += 1;
        }
        Ok(DAGSetInfo { each_dag_info })
    }
}

/// Number of processing cores of the processor of a run.
#[derive(Debug, Clone, Copy, PartialEq, Eq, Structural)]
pub struct ProcessorInfo {
    pub number_of_cores: usize,
}

impl ProcessorInfo {
    pub fn new(number_of_cores: usize) -> (info: Self)
        ensures
            info.number_of_cores == number_of_cores,
    {
        Self { number_of_cores }
    }
}

/// When a job started, resumed, finished or was preempted.
#[derive(Debug, Clone, Copy, PartialEq, Eq, Structural)]
pub enum JobEventTimes {
    StartTime(i32),
    ResumeTime(i32),
    FinishTime(i32),
    PreemptedTime(i32),
}

/// One event of one job: the core it took place on, the task, the node and
/// the instance of the task it belongs to, and its kind and time.
#[derive(Debug, Clone, Copy, PartialEq, Eq, Structural)]
pub struct JobLog {
    pub core_id: usize,
    pub dag_id: usize,
    pub node_id: usize,
    pub job_id: usize,
    pub event_time: JobEventTimes,
}

impl JobLog {
    pub fn new(
        core_id: usize,
        dag_id: usize,
        node_id: usize,
        job_id: usize,
        event_time: JobEventTimes,
    ) -> (log: Self)
        ensures
            log == (JobLog { core_id, dag_id, node_id, job_id, event_time }),
    {
        Self { core_id, dag_id, node_id, job_id, event_time }
    }
}

/// The busy time of one core.
#[derive(Debug, Clone, Copy, PartialEq, Eq, Structural)]
pub struct CoreLog {
    pub core_id: usize,
    pub total_proc_time: i32,
}

impl CoreLog {
    pub fn new(core_id: usize) -> (log: Self)
        ensures
            log == (CoreLog { core_id, total_proc_time: 0 }),
    {
        Self { core_id, total_proc_time: 0 }
    }

    /// This log after one more busy tick; the count stops at `i32::MAX`.
    pub open spec fn ticked(self) -> CoreLog {
        if self.total_proc_time < i32::MAX {
            CoreLog { core_id: self.core_id, total_proc_time: (self.total_proc_time + 1) as i32 }
        } else {
            self
        }
    }
}

/// `logs` after one busy tick on each core that `core_indices` names, a
/// core named twice counting twice.
pub open spec fn busy_logged(logs: Seq<CoreLog>, core_indices: Seq<usize>) -> Seq<CoreLog>
    decreases core_indices.len(),
{
    if core_indices.len() == 0 {
        logs
    } else {
        let before = busy_logged(logs, core_indices.drop_last());
        let core = core_indices.last() as int;
        before.update(core, before[core].ticked())
    }
}

/// Where no core is named twice, each core that `core_indices` names has
/// been busy for one tick more, and every other core for as long as before.
pub proof fn lemma_busy_logged_once(logs: Seq<CoreLog>, core_indices: Seq<usize>)
    requires
        logs.len() <= usize::MAX,
        forall|i: int| 0 <= i < core_indices.len() ==> (#[trigger] core_indices[i]) < logs.len(),
        forall|i: int, j: int|
            0 <= i < j < core_indices.len() ==> core_indices[i] != core_indices[j],
    ensures
        busy_logged(logs, core_indices).len() == logs.len(),
        forall|c: int|
            0 <= c < logs.len() ==> #[trigger] busy_logged(logs, core_indices)[c] == if core_indices.contains(
                c as usize,
            ) {
                logs[c].ticked()
            } else {
                logs[c]
            },
    decreases core_indices.len(),
{
    if core_indices.len() > 0 {
        let head = core_indices.drop_last();
        let last = core_indices.last();
        assert forall|i: int, j: int| 0 <= i < j < head.len() implies head[i] != head[j] by {
            assert(head[i] == core_indices[i] && head[j] == core_indices[j]);
        }
        assert forall|i: int| 0 <= i < head.len() implies (#[trigger] head[i]) < logs.len() by {
            assert(head[i] == core_indices[i]);
        }
        lemma_busy_logged_once(logs, head);
        assert(!head.contains(last)) by {
            if head.contains(last) {
                let i = choose|i: int| 0 <= i < head.len() && head[i] == last;
                assert(core_indices[i] != core_indices[core_indices.len() - 1]);
            }
        }
        assert forall|c: int| 0 <= c < logs.len() implies #[trigger] busy_logged(
            logs,
            core_indices,
        )[c] == if core_indices.contains(c as usize) {
            logs[c].ticked()
        } else {
            logs[c]
        } by {
            if c == last {
                assert(core_indices[core_indices.len() - 1] == c as usize);
            } else if head.contains(c as usize) {
                let i = choose|i: int| 0 <= i < head.len() && head[i] == c as usize;
                assert(core_indices[i] == c as usize);
            } else if core_indices.contains(c as usize) {
                let i = choose|i: int| 0 <= i < core_indices.len() && core_indices[i] == c as usize;
                assert(i < head.len());
                assert(head[i] == c as usize);
            }
        }
    }
}

/// The busy time of every core of a processor.
#[derive(Debug, Clone)]
pub struct ProcessorLog {
    pub core_logs: Vec<CoreLog>,
}

impl ProcessorLog {
    /// One empty log for each of `num_cores` cores.
    pub fn new(num_cores: usize) -> (log: Self)
        ensures
            log.core_logs@ == Seq::new(
                num_cores as nat,
                |i: int| (CoreLog { core_id: i as usize, total_proc_time: 0 }),
            ),
    {
        let mut core_logs: Vec<CoreLog> = Vec::new();
        let mut i: usize = 0;
        while i < num_cores
            invariant
                i <= num_cores,
                core_logs@ == Seq::new(
                    i as nat,
                    |i: int| (CoreLog { core_id: i as usize, total_proc_time: 0 }),
                ),
            decreases num_cores - i,
        {
            core_logs.push(CoreLog::new(i));
            assert(core_logs@ =~= Seq::new(
                (i + 1) as nat,
                |i: int| (CoreLog { core_id: i as usize, total_proc_time: 0 }),
            ));
            i += 1;
        }
        ProcessorLog { core_logs }
    }

    /// Counts one busy tick for each core that `core_indices` names.
    pub fn write_processing_time(&mut self, core_indices: &Vec<usize>)
        requires
            forall|i: int|
                0 <= i < core_indices@.len() ==> (#[trigger] core_indices@[i]) < old(
                    self,
                ).core_logs@.len(),
        ensures
            final(self).core_logs@ == busy_logged(old(self).core_logs@, core_indices@),
    {
        let mut i: usize = 0;
        while i < core_indices.len()
            invariant
                i <= core_indices@.len(),
                self.core_logs@.len() == old(self).core_logs@.len(),
                forall|i: int|
                    0 <= i < core_indices@.len() ==> (#[trigger] core_indices@[i]) < old(
                        self,
                    ).core_logs@.len(),
                self.core_logs@ == busy_logged(
                    old(self).core_logs@,
                    core_indices@.subrange(0, i as int),
                ),
            decreases core_indices@.len() - i,
        {
            let core = core_indices[i];
            let mut log: CoreLog = self.core_logs[core];
            if log.total_proc_time < i32::MAX {
                log.total_proc_time = log.total_proc_time + 1;
            }
            self.core_logs[core] = log;
            proof {
                assert(core_indices@.subrange(0, i + 1).drop_last() =~= core_indices@.subrange(
                    0,
                    i as int,
                ));
                assert(core_indices@.subrange(0, i + 1).last() == core);
            }
            i += 1;
        }
        assert(core_indices@.subrange(0, core_indices@.len() as int) =~= core_indices@);
    }
}

/// The releases and finishes of one task over a run, and the response
/// times that follow from them.
#[derive(Debug, Clone)]
pub struct DAGLog {
    pub dag_id: usize,
    pub release_time: Vec<i32>,
    pub finish_time: Vec<i32>,
    pub response_time: Vec<i32>,
    pub worst_response_time: i32,
}

/// The finishes to pair with `releases`: those recorded, and where their
/// number differs from that of the releases, one more at `i32::MAX`, which
/// marks a job that was released and did not finish.
pub open spec fn closed_finishes(releases: Seq<i32>, finishes: Seq<i32>) -> Seq<i32> {
    if releases.len() != finishes.len() {
        finishes.push(i32::MAX)
    } else {
        finishes
    }
}

/// Finish less release, instance by instance, for as many instances as
/// have both.
pub open spec fn response_times(releases: Seq<i32>, finishes: Seq<i32>) -> Seq<int> {
    Seq::new(
        if releases.len() <= finishes.len() {
            releases.len()
        } else {
            finishes.len()
        },
        |i: int| finishes[i] - releases[i],
    )
}

/// The largest of the first `upto` of `times`, and 0 if there is none.
pub open spec fn worst_of(times: Seq<i32>, upto: int) -> int
    decreases upto,
{
    if upto <= 0 {
        0
    } else if upto == 1 {
        times[0] as int
    } else {
        let rest = worst_of(times, upto - 1);
        if times[upto - 1] > rest {
            times[upto - 1] as int
        } else {
            rest
        }
    }
}

/// The worst of the first `upto` times is one of them, and none of them is
/// larger.
pub proof fn lemma_worst_of(times: Seq<i32>, upto: int)
    requires
        0 < upto <= times.len(),
    ensures
        forall|i: int| 0 <= i < upto ==> (#[trigger] times[i]) <= worst_of(times, upto),
        exists|i: int| 0 <= i < upto && (#[trigger] times[i]) == worst_of(times, upto),
    decreases upto,
{
    if upto > 1 {
        lemma_worst_of(times, upto - 1);
        let i = choose|i: int| 0 <= i < upto - 1 && (#[trigger] times[i]) == worst_of(
            times,
            upto - 1,
        );
        if times[upto - 1] > worst_of(times, upto - 1) {
            assert(times[upto - 1] == worst_of(times, upto));
        } else {
            assert(times[i] == worst_of(times, upto));
        }
    } else {
        assert(times[0] == worst_of(times, upto));
    }
}

impl DAGLog {
    /// No time recorded lies before the start of the run.
    pub open spec fn wf(&self) -> bool {
        &&& forall|i: int| 0 <= i < self.release_time@.len() ==> (#[trigger] self.release_time@[i]) >= 0
        &&& forall|i: int| 0 <= i < self.finish_time@.len() ==> (#[trigger] self.finish_time@[i]) >= 0
    }

    /// An empty log for the task `dag_id`.
    pub fn new(dag_id: usize) -> (log: Self)
        ensures
            log.wf(),
            log.dag_id == dag_id,
            log.release_time@.len() == 0,
            log.finish_time@.len() == 0,
            log.response_time@.len() == 0,
            log.worst_response_time == 0,
    {
        Self {
            dag_id,
            release_time: Vec::new(),
            finish_time: Vec::new(),
            response_time: Vec::new(),
            worst_response_time: 0,
        }
    }

    /// Derives the response times from the releases and the finishes. A
    /// job that was released and did not finish counts as finished at
    /// `i32::MAX`.
    pub fn calculate_response_time(&mut self)
        requires
            old(self).wf(),
        ensures
            final(self).wf(),
            final(self).dag_id == old(self).dag_id,
            final(self).release_time@ == old(self).release_time@,
            final(self).finish_time@ == closed_finishes(
                old(self).release_time@,
                old(self).finish_time@,
            ),
            final(self).worst_response_time == old(self).worst_response_time,
            final(self).response_time@.map_values(|t: i32| t as int) == response_times(
                final(self).release_time@,
                final(self).finish_time@,
            ),
    {
        if self.release_time.len() != self.finish_time.len() {
            self.finish_time.push(i32::MAX);
        }
        let count = if self.release_time.len() <= self.finish_time.len() {
            self.release_time.len()
        } else {
            self.finish_time.len()
        };
        let mut times: Vec<i32> = Vec::new();
        let mut i: usize = 0;
        while i < count
            invariant
                self.wf(),
                count <= self.release_time@.len(),
                count <= self.finish_time@.len(),
                i <= count,
                times@.len() == i,
                forall|j: int|
                    0 <= j < i ==> (#[trigger] times@[j]) == self.finish_time@[j]
                        - self.release_time@[j],
            decreases count - i,
        {
            assert(self.release_time@[i as int] >= 0);
            assert(self.finish_time@[i as int] >= 0);
            times.push(self.finish_time[i] - self.release_time[i]);
            i += 1;
        }
        self.response_time = times;
        assert(self.response_time@.map_values(|t: i32| t as int) =~= response_times(
            self.release_time@,
            self.finish_time@,
        ));
    }

    /// Sets the worst response time to the largest response time, and to 0
    /// where there is none.
    pub fn calculate_worst_response_time(&mut self)
        ensures
            final(self).dag_id == old(self).dag_id,
            final(self).release_time@ == old(self).release_time@,
            final(self).finish_time@ == old(self).finish_time@,
            final(self).response_time@ == old(self).response_time@,
            final(self).worst_response_time == worst_of(
                old(self).response_time@,
                old(self).response_time@.len() as int,
            ),
    {
        let n = self.response_time.len();
        let mut worst: i32 = 0;
        let mut i: usize = 0;
        while i < n
            invariant
                n == self.response_time@.len(),
                i <= n,
                worst == worst_of(self.response_time@, i as int),
                self.dag_id == old(self).dag_id,
                self.release_time@ == old(self).release_time@,
                self.finish_time@ == old(self).finish_time@,
                self.response_time@ == old(self).response_time@,
            decreases n - i,
        {
            if i == 0 || self.response_time[i] > worst {
                worst = self.response_time[i];
            }
            i += 1;
        }
        self.worst_response_time = worst;
    }
}

/// The record of one run of one task.
#[derive(Debug, Clone)]
pub struct DAGSchedulerLog {
    pub dag_info: DAGInfo,
    pub processor_info: ProcessorInfo,
    pub node_logs: Vec<JobLog>,
    pub processor_log: ProcessorLog,
}

impl DAGSchedulerLog {
    /// An empty record for a run of `dag` on `num_cores` cores.
    pub fn new(dag: &Dag, num_cores: usize) -> (log: Result<Self, CustomError>)
        requires
            dag.wf(),
        ensures
            match log {
                Ok(l) => {
                    &&& l.dag_info.critical_path_length == dag.critical_path_length()
                    &&& l.dag_info.volume == dag.volume()
                    &&& l.dag_info.period == or_zero(dag.head_period())
                    &&& l.dag_info.end_to_end_deadline == or_zero(dag.end_to_end_deadline())
                    &&& l.processor_info.number_of_cores == num_cores
                    &&& l.node_logs@.len() == 0
                    &&& l.processor_log.core_logs@ == Seq::new(
                        num_cores as nat,
                        |i: int| (CoreLog { core_id: i as usize, total_proc_time: 0 }),
                    )
                },
                Err(e) => e == CustomError::Cyclic || e == CustomError::Overflow,
            },
            log is Ok <==> dag.info_fault() is None,
            log matches Err(e) ==> dag.info_fault() == Some(e),
    {
        let dag_info = match DAGInfo::new(dag) {
            Ok(info) => info,
            Err(e) => {
                return Err(e);
            },
        };
        Ok(
            Self {
                dag_info,
                processor_info: ProcessorInfo::new(num_cores),
                node_logs: Vec::new(),
                processor_log: ProcessorLog::new(num_cores),
            },
        )
    }

    /// Records that `node_data` started on `core_id` at `current_time`.
    pub fn write_allocating_job(&mut self, node_data: &NodeData, core_id: usize, current_time: i32)
        requires
            node_data.id >= 0,
        ensures
            final(self).dag_info == old(self).dag_info,
            final(self).processor_info == old(self).processor_info,
            final(self).processor_log == old(self).processor_log,
            final(self).node_logs@ == old(self).node_logs@.push(
                JobLog {
                    core_id,
                    dag_id: 0,
                    node_id: node_data.id as usize,
                    job_id: 0,
                    event_time: JobEventTimes::StartTime(current_time),
                },
            ),
    {
        let job_log = JobLog::new(
            core_id,
            0,
            node_data.id as usize,
            0,
            JobEventTimes::StartTime(current_time),
        );
        self.node_logs.push(job_log);
    }

    /// Records anything else that happened to `node_data` on `core_id`.
    pub fn write_job_event(&mut self, node_data: &NodeData, core_id: usize, event_time: JobEventTimes)
        requires
            node_data.id >= 0,
        ensures
            final(self).dag_info == old(self).dag_info,
            final(self).processor_info == old(self).processor_info,
            final(self).processor_log == old(self).processor_log,
            final(self).node_logs@ == old(self).node_logs@.push(
                JobLog { core_id, dag_id: 0, node_id: node_data.id as usize, job_id: 0, event_time },
            ),
    {
        let job_log = JobLog::new(core_id, 0, node_data.id as usize, 0, event_time);
        self.node_logs.push(job_log);
    }

    /// Counts one busy tick for each core that `core_indices` names.
    pub fn write_processing_time(&mut self, core_indices: &Vec<usize>)
        requires
            forall|i: int|
                0 <= i < core_indices@.len() ==> (#[trigger] core_indices@[i]) < old(
                    self,
                ).processor_log.core_logs@.len(),
        ensures
            final(self).dag_info == old(self).dag_info,
            final(self).processor_info == old(self).processor_info,
            final(self).node_logs@ == old(self).node_logs@,
            final(self).processor_log.core_logs@ == busy_logged(
                old(self).processor_log.core_logs@,
                core_indices@,
            ),
    {
        self.processor_log.write_processing_time(core_indices);
    }

    /// Records that `node_data` finished on `core_id` at `current_time`.
    pub fn write_finishing_job(&mut self, node_data: &NodeData, core_id: usize, current_time: i32)
        requires
            node_data.id >= 0,
        ensures
            final(self).dag_info == old(self).dag_info,
            final(self).processor_info == old(self).processor_info,
            final(self).processor_log == old(self).processor_log,
            final(self).node_logs@ == old(self).node_logs@.push(
                JobLog {
                    core_id,
                    dag_id: 0,
                    node_id: node_data.id as usize,
                    job_id: 0,
                    event_time: JobEventTimes::FinishTime(current_time),
                },
            ),
    {
        let job_log = JobLog::new(
            core_id,
            0,
            node_data.id as usize,
            0,
            JobEventTimes::FinishTime(current_time),
        );
        self.node_logs.push(job_log);
    }
}

/// The events among `events` that belong to task `dag_id`, in their order.
pub open spec fn events_of(events: Seq<JobLog>, dag_id: int) -> Seq<JobLog>
    decreases events.len(),
{
    if events.len() == 0 {
        Seq::empty()
    } else {
        let rest = events_of(events.drop_last(), dag_id);
        if events.last().dag_id == dag_id {
            rest.push(events.last())
        } else {
            rest
        }
    }
}

/// The record of one run of a set of tasks.
#[derive(Debug, Clone)]
pub struct DAGSetSchedulerLog {
    pub dag_set_info: DAGSetInfo,
    pub processor_info: ProcessorInfo,
    pub dag_set_log: Vec<DAGLog>,
    pub node_set_logs: Vec<Vec<JobLog>>,
    pub processor_log: ProcessorLog,
}

impl DAGSetSchedulerLog {
    /// The record holds one log of times and one list of events for each
    /// task, and no time before the start of the run.
    pub open spec fn wf(&self) -> bool {
        &&& self.dag_set_log@.len() == self.node_set_logs@.len()
        &&& forall|d: int| 0 <= d < self.dag_set_log@.len() ==> (#[trigger] self.dag_set_log@[d]).wf()
    }

    /// An empty record for a run of `dag_set` on `num_cores` cores. Fails
    /// with the fault of the first task that cannot be described.
    pub fn new(dag_set: &Vec<Dag>, num_cores: usize) -> (log: Result<Self, CustomError>)
        requires
            all_wf(dag_set@),
        ensures
            match log {
                Ok(l) => {
                    &&& l.wf()
                    &&& l.dag_set_info.each_dag_info@.len() == dag_set@.len()
                    &&& forall|d: int|
                        0 <= d < dag_set@.len() ==> {
                            let info = #[trigger] l.dag_set_info.each_dag_info@[d];
                            &&& info.critical_path_length == dag_set@[d].critical_path_length()
                            &&& info.volume == dag_set@[d].volume()
                            &&& info.period == or_zero(dag_set@[d].head_period())
                            &&& info.end_to_end_deadline == or_zero(
                                dag_set@[d].end_to_end_deadline(),
                            )
                        }
                    &&& l.processor_info.number_of_cores == num_cores
                    &&& l.dag_set_log@.len() == dag_set@.len()
                    &&& l.node_set_logs@.len() == dag_set@.len()
                    &&& forall|d: int|
                        0 <= d < dag_set@.len() ==> {
                            &&& (#[trigger] l.dag_set_log@[d]).dag_id == d
                            &&& l.dag_set_log@[d].release_time@.len() == 0
                            &&& l.dag_set_log@[d].finish_time@.len() == 0
                            &&& l.dag_set_log@[d].response_time@.len() == 0
                        }
                    &&& forall|d: int|
                        0 <= d < dag_set@.len() ==> (#[trigger] l.node_set_logs@[d])@.len() == 0
                    &&& l.processor_log.core_logs@ == Seq::new(
                        num_cores as nat,
                        |i: int| (CoreLog { core_id: i as usize, total_proc_time: 0 }),
                    )
                },
                Err(e) => e == CustomError::Cyclic || e == CustomError::Overflow,
            },
            log is Ok <==> forall|d: int|
                0 <= d < dag_set@.len() ==> (#[trigger] dag_set@[d]).info_fault() is None,
            log matches Err(e) ==> first_info_fault(dag_set@, 0) == Some(e),
    {
        let dag_set_info = match DAGSetInfo::new(dag_set) {
            Ok(info) => info,
            Err(e) => {
                return Err(e);
            },
        };
        let n = dag_set.len();
        let mut dag_set_log: Vec<DAGLog> = Vec::new();
        let mut node_set_logs: Vec<Vec<JobLog>> = Vec::new();
        let mut d: usize = 0;
        while d < n
            invariant
                d <= n,
                dag_set_log@.len() == d,
                node_set_logs@.len() == d,
                forall|j: int|
                    0 <= j < d ==> {
                        &&& (#[trigger] dag_set_log@[j]).dag_id == j
                        &&& dag_set_log@[j].wf()
                        &&& dag_set_log@[j].release_time@.len() == 0
                        &&& dag_set_log@[j].finish_time@.len() == 0
                        &&& dag_set_log@[j].response_time@.len() == 0
                    },
                forall|j: int| 0 <= j < d ==> (#[trigger] node_set_logs@[j])@.len() == 0,
            decreases n - d,
        {
            dag_set_log.push(DAGLog::new(d));
            node_set_logs.push(Vec::new());
            d += 1;
        }
        Ok(
            Self {
                dag_set_info,
                processor_info: ProcessorInfo::new(num_cores),
                dag_set_log,
                node_set_logs,
                processor_log: ProcessorLog::new(num_cores),
            },
        )
    }

    /// Records that task `dag_id` was released at `release_time`.
    pub fn write_dag_release_time(&mut self, dag_id: usize, release_time: i32)
        requires
            old(self).wf(),
            dag_id < old(self).dag_set_log@.len(),
            release_time >= 0,
        ensures
            final(self).wf(),
            final(self).node_set_logs@ == old(self).node_set_logs@,
            final(self).processor_log == old(self).processor_log,
            final(self).processor_info == old(self).processor_info,
            final(self).dag_set_info.each_dag_info@ == old(self).dag_set_info.each_dag_info@,
            final(self).dag_set_log@.len() == old(self).dag_set_log@.len(),
            final(self).dag_set_log@[dag_id as int].release_time@ == old(
                self,
            ).dag_set_log@[dag_id as int].release_time@.push(release_time),
            final(self).dag_set_log@[dag_id as int].finish_time@ == old(
                self,
            ).dag_set_log@[dag_id as int].finish_time@,
            final(self).dag_set_log@[dag_id as int].dag_id == old(
                self,
            ).dag_set_log@[dag_id as int].dag_id,
            forall|d: int|
                0 <= d < final(self).dag_set_log@.len() && d != dag_id ==> final(self).dag_set_log@[d] == old(self).dag_set_log@[d],
    {
        assert(self.dag_set_log@[dag_id as int].wf());
        self.dag_set_log[dag_id].release_time.push(release_time);
        assert forall|d: int| 0 <= d < self.dag_set_log@.len() implies (
        #[trigger] self.dag_set_log@[d]).wf() by {
            assert(old(self).dag_set_log@[d].wf());
        }
    }

    /// Records that an instance of task `dag_id` finished at `finish_time`.
    pub fn write_dag_finish_time(&mut self, dag_id: usize, finish_time: i32)
        requires
            old(self).wf(),
            dag_id < old(self).dag_set_log@.len(),
            finish_time >= 0,
        ensures
            final(self).wf(),
            final(self).node_set_logs@ == old(self).node_set_logs@,
            final(self).processor_log == old(self).processor_log,
            final(self).processor_info == old(self).processor_info,
            final(self).dag_set_info.each_dag_info@ == old(self).dag_set_info.each_dag_info@,
            final(self).dag_set_log@.len() == old(self).dag_set_log@.len(),
            final(self).dag_set_log@[dag_id as int].finish_time@ == old(
                self,
            ).dag_set_log@[dag_id as int].finish_time@.push(finish_time),
            final(self).dag_set_log@[dag_id as int].release_time@ == old(
                self,
            ).dag_set_log@[dag_id as int].release_time@,
            final(self).dag_set_log@[dag_id as int].dag_id == old(
                self,
            ).dag_set_log@[dag_id as int].dag_id,
            forall|d: int|
                0 <= d < final(self).dag_set_log@.len() && d != dag_id ==> final(self).dag_set_log@[d] == old(self).dag_set_log@[d],
    {
        assert(self.dag_set_log@[dag_id as int].wf());
        self.dag_set_log[dag_id].finish_time.push(finish_time);
        assert forall|d: int| 0 <= d < self.dag_set_log@.len() implies (
        #[trigger] self.dag_set_log@[d]).wf() by {
            assert(old(self).dag_set_log@[d].wf());
        }
    }

    /// Records `job_log` with the events of the task that it names.
    pub fn write_job_log(&mut self, job_log: JobLog)
        requires
            job_log.dag_id < old(self).node_set_logs@.len(),
        ensures
            final(self).dag_set_log@ == old(self).dag_set_log@,
            final(self).processor_log == old(self).processor_log,
            final(self).processor_info == old(self).processor_info,
            final(self).dag_set_info.each_dag_info@ == old(self).dag_set_info.each_dag_info@,
            final(self).node_set_logs@.len() == old(self).node_set_logs@.len(),
            final(self).node_set_logs@[job_log.dag_id as int]@ == old(
                self,
            ).node_set_logs@[job_log.dag_id as int]@.push(job_log),
            forall|d: int|
                0 <= d < final(self).node_set_logs@.len() && d != job_log.dag_id ==> final(self).node_set_logs@[d] == old(self).node_set_logs@[d],
    {
        self.node_set_logs[job_log.dag_id].push(job_log);
    }

    /// Records an event of instance `job_id` of the node `node_data`, which
    /// names its task, on core `core_id`.
    pub fn write_job_event(
        &mut self,
        node_data: &NodeData,
        core_id: usize,
        job_id: usize,
        event_time: JobEventTimes,
    )
        requires
            node_data.id >= 0,
            node_data.dag_id is Some,
            0 <= node_data.dag_id->0 < old(self).node_set_logs@.len(),
        ensures
            final(self).dag_set_log@ == old(self).dag_set_log@,
            final(self).processor_log == old(self).processor_log,
            final(self).processor_info == old(self).processor_info,
            final(self).dag_set_info.each_dag_info@ == old(self).dag_set_info.each_dag_info@,
            final(self).node_set_logs@.len() == old(self).node_set_logs@.len(),
            final(self).node_set_logs@[node_data.dag_id->0 as int]@ == old(
                self,
            ).node_set_logs@[node_data.dag_id->0 as int]@.push(
                JobLog {
                    core_id,
                    dag_id: node_data.dag_id->0 as usize,
                    node_id: node_data.id as usize,
                    job_id,
                    event_time,
                },
            ),
            forall|d: int|
                0 <= d < final(self).node_set_logs@.len() && d != node_data.dag_id->0 ==> final(self).node_set_logs@[d] == old(self).node_set_logs@[d],
    {
        let dag_id = match node_data.dag_id {
            Some(d) => d as usize,
            None => 0,
        };
        let job_log = JobLog::new(core_id, dag_id, node_data.id as usize, job_id, event_time);
        self.write_job_log(job_log);
    }

    /// Records that instance number `job_id`, counted from 1, of the node
    /// `node_data` took up core `core_id` at `current_time`: as a resumption
    /// where the node is marked as preempted, as a start where it is not.
    pub fn write_allocating_job(
        &mut self,
        node_data: &NodeData,
        core_id: usize,
        job_id: usize,
        current_time: i32,
    )
        requires
            node_data.id >= 0,
            node_data.dag_id is Some,
            0 <= node_data.dag_id->0 < old(self).node_set_logs@.len(),
            job_id >= 1,
        ensures
            final(self).dag_set_log@ == old(self).dag_set_log@,
            final(self).processor_log == old(self).processor_log,
            final(self).processor_info == old(self).processor_info,
            final(self).dag_set_info.each_dag_info@ == old(self).dag_set_info.each_dag_info@,
            final(self).node_set_logs@.len() == old(self).node_set_logs@.len(),
            final(self).node_set_logs@[node_data.dag_id->0 as int]@ == old(
                self,
            ).node_set_logs@[node_data.dag_id->0 as int]@.push(
                JobLog {
                    core_id,
                    dag_id: node_data.dag_id->0 as usize,
                    node_id: node_data.id as usize,
                    job_id: (job_id - 1) as usize,
                    event_time: if node_data.is_preempted is Some {
                        JobEventTimes::ResumeTime(current_time)
                    } else {
                        JobEventTimes::StartTime(current_time)
                    },
                },
            ),
            forall|d: int|
                0 <= d < final(self).node_set_logs@.len() && d != node_data.dag_id->0 ==> final(self).node_set_logs@[d] == old(self).node_set_logs@[d],
    {
        if node_data.is_preempted.is_some() {
            self.write_job_event(
                node_data,
                core_id,
                job_id - 1,
                JobEventTimes::ResumeTime(current_time),
            )
        } else {
            self.write_job_event(
                node_data,
                core_id,
                job_id - 1,
                JobEventTimes::StartTime(current_time),
            )
        }
    }

    /// Counts one busy tick for each core that `core_indices` names.
    pub fn write_processing_time(&mut self, core_indices: &Vec<usize>)
        requires
            forall|i: int|
                0 <= i < core_indices@.len() ==> (#[trigger] core_indices@[i]) < old(
                    self,
                ).processor_log.core_logs@.len(),
        ensures
            final(self).dag_set_log@ == old(self).dag_set_log@,
            final(self).node_set_logs@ == old(self).node_set_logs@,
            final(self).processor_info == old(self).processor_info,
            final(self).dag_set_info.each_dag_info@ == old(self).dag_set_info.each_dag_info@,
            final(self).processor_log.core_logs@ == busy_logged(
                old(self).processor_log.core_logs@,
                core_indices@,
            ),
    {
        self.processor_log.write_processing_time(core_indices);
    }

    /// Derives the response times and the worst response time of every
    /// task from its releases and finishes.
    pub fn calculate_response_time(&mut self)
        requires
            old(self).wf(),
        ensures
            final(self).wf(),
            final(self).node_set_logs@ == old(self).node_set_logs@,
            final(self).processor_log == old(self).processor_log,
            final(self).processor_info == old(self).processor_info,
            final(self).dag_set_info.each_dag_info@ == old(self).dag_set_info.each_dag_info@,
            final(self).dag_set_log@.len() == old(self).dag_set_log@.len(),
            forall|d: int|
                0 <= d < old(self).dag_set_log@.len() ==> {
                    let before = old(self).dag_set_log@[d];
                    let after = #[trigger] final(self).dag_set_log@[d];
                    &&& after.dag_id == before.dag_id
                    &&& after.release_time@ == before.release_time@
                    &&& after.finish_time@ == closed_finishes(
                        before.release_time@,
                        before.finish_time@,
                    )
                    &&& after.response_time@.map_values(|t: i32| t as int) == response_times(
                        after.release_time@,
                        after.finish_time@,
                    )
                    &&& after.worst_response_time == worst_of(
                        after.response_time@,
                        after.response_time@.len() as int,
                    )
                },
    {
        let n = self.dag_set_log.len();
        let mut d: usize = 0;
        while d < n
            invariant
                old(self).wf(),
                n == self.dag_set_log@.len(),
                n == old(self).dag_set_log@.len(),
                self.node_set_logs@ == old(self).node_set_logs@,
                self.processor_log == old(self).processor_log,
                self.processor_info == old(self).processor_info,
                self.dag_set_info.each_dag_info@ == old(self).dag_set_info.each_dag_info@,
                d <= n,
                forall|j: int| d <= j < n ==> self.dag_set_log@[j] == old(self).dag_set_log@[j],
                forall|j: int| 0 <= j < n ==> (#[trigger] self.dag_set_log@[j]).wf(),
                forall|j: int|
                    0 <= j < d ==> {
                        let before = old(self).dag_set_log@[j];
                        let after = #[trigger] self.dag_set_log@[j];
                        &&& after.dag_id == before.dag_id
                        &&& after.release_time@ == before.release_time@
                        &&& after.finish_time@ == closed_finishes(
                            before.release_time@,
                            before.finish_time@,
                        )
                        &&& after.response_time@.map_values(|t: i32| t as int) == response_times(
                            after.release_time@,
                            after.finish_time@,
                        )
                        &&& after.worst_response_time == worst_of(
                            after.response_time@,
                            after.response_time@.len() as int,
                        )
                    },
            decreases n - d,
        {
            assert(self.dag_set_log@[d as int].wf());
            let ghost before = self.dag_set_log@;
            self.dag_set_log[d].calculate_response_time();
            self.dag_set_log[d].calculate_worst_response_time();
            assert(forall|j: int| 0 <= j < n && j != d ==> self.dag_set_log@[j] == before[j]);
            assert forall|j: int| 0 <= j < n implies (#[trigger] self.dag_set_log@[j]).wf() by {
                if j != d {
                    assert(before[j].wf());
                }
            }
            d += 1;
        }
    }
}

} // verus!
