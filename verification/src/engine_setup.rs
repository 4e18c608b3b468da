//! Setting up a run: the tasks as the engine holds them, and the engine
//! before its first tick.

use crate::engine::{DagRun, SchedulerEngine};
use crate::engine_model::{NodeState, PreemptiveType};
use crate::graph_extension::{CustomError, Dag, Edge, NodeData};
use crate::log::CoreLog;
use crate::processor::{can_run, Core, HomogeneousProcessor};
use vstd::prelude::*;

verus! {

/// Whether every node of `dag` has an execution time that is not negative.
pub open spec fn all_can_run(dag: Dag) -> bool {
    forall|v: int| 0 <= v < dag.nodes@.len() ==> can_run(#[trigger] dag.nodes@[v])
}

/// The identity of the first node of `dag`, from `from` on, whose identity
/// is negative.
pub open spec fn first_negative_id(dag: Dag, from: int) -> Option<i32>
    decreases dag.nodes@.len() - from,
{
    if from < 0 || from >= dag.nodes@.len() {
        None
    } else if dag.nodes@[from].id < 0 {
        Some(dag.nodes@[from].id)
    } else {
        first_negative_id(dag, from + 1)
    }
}

/// Why the engine cannot hold `dag` as task number `d`, if it cannot:
/// `NegativeId` with the identity of the first node whose identity is
/// negative; else `Overflow` where the task has more nodes, or a higher
/// number, than an `i32` holds.
pub open spec fn hold_fault(dag: Dag, d: int) -> Option<CustomError> {
    if first_negative_id(dag, 0) is Some {
        Some(CustomError::NegativeId(first_negative_id(dag, 0)->0))
    } else if dag.nodes@.len() > i32::MAX || d > i32::MAX {
        Some(CustomError::Overflow)
    } else {
        None
    }
}

impl Dag {
    /// A copy of this graph.
    pub fn duplicate(&self) -> (copy: Dag)
        ensures
            copy.nodes@ == self.nodes@,
            copy.edges@ == self.edges@,
    {
        let mut nodes: Vec<NodeData> = Vec::new();
        let mut i: usize = 0;
        while i < self.nodes.len()
            invariant
                i <= self.nodes@.len(),
                nodes@ == self.nodes@.subrange(0, i as int),
            decreases self.nodes@.len() - i,
        {
            nodes.push(self.nodes[i]);
            assert(nodes@ =~= self.nodes@.subrange(0, i + 1));
            i += 1;
        }
        assert(self.nodes@.subrange(0, self.nodes@.len() as int) =~= self.nodes@);
        let mut edges: Vec<Edge> = Vec::new();
        let mut e: usize = 0;
        while e < self.edges.len()
            invariant
                e <= self.edges@.len(),
                edges@ == self.edges@.subrange(0, e as int),
            decreases self.edges@.len() - e,
        {
            edges.push(self.edges[e]);
            assert(edges@ =~= self.edges@.subrange(0, e + 1));
            e += 1;
        }
        assert(self.edges@.subrange(0, self.edges@.len() as int) =~= self.edges@);
        Dag { nodes, edges }
    }
}

impl DagRun {
    /// The task `dag` as number `d` of a run, before its first release, which
    /// is due at `first_release`, or never. The run holds a copy of the graph
    /// as it is given. Fails exactly when the engine cannot hold the task,
    /// with the fault that `hold_fault` names.
    pub fn new(
        dag: &Dag,
        d: usize,
        heavy: bool,
        period: Option<i32>,
        first_release: Option<i32>,
    ) -> (run: Result<DagRun, CustomError>)
        requires
            dag.wf(),
        ensures
            match run {
                Ok(r) => {
                    &&& r@.wf(d as int)
                    &&& r.dag.nodes@ == dag.nodes@
                    &&& r.dag.edges@ == dag.edges@
                    &&& r.heavy == heavy
                    &&& r.period == period
                    &&& r.next_release == first_release
                    &&& !r.active
                    &&& r.job_id == 0
                    &&& r.backlog == 0
                    &&& r.states@ == Seq::new(dag.nodes@.len(), |v: int| NodeState::Finished)
                    &&& r.finish_times@ == Seq::new(dag.nodes@.len(), |v: int| 0i32)
                    &&& r.release_times@.len() == 0
                    &&& r.finish_log@.len() == 0
                },
                Err(e) => hold_fault(*dag, d as int) == Some(e),
            },
            run is Ok <==> hold_fault(*dag, d as int) is None,
    {
        let n = dag.nodes.len();
        assert(all_can_run(*dag)) by {
            assert forall|v: int| 0 <= v < dag.nodes@.len() implies can_run(
                #[trigger] dag.nodes@[v],
            ) by {
                assert(dag.nodes@[v].has_valid_execution_time());
            }
        }
        let mut v: usize = 0;
        while v < n
            invariant
                dag.wf(),
                n == dag.nodes@.len(),
                v <= n,
                all_can_run(*dag),
                first_negative_id(*dag, 0) == first_negative_id(*dag, v as int),
                forall|u: int| 0 <= u < v ==> (#[trigger] dag.nodes@[u]).id >= 0,
            decreases n - v,
        {
            if dag.nodes[v].id < 0 {
                return Err(CustomError::NegativeId(dag.nodes[v].id));
            }
            v += 1;
        }
        if n > i32::MAX as usize || d > i32::MAX as usize {
            return Err(CustomError::Overflow);
        }
        let mut states: Vec<NodeState> = Vec::new();
        let mut finish_times: Vec<i32> = Vec::new();
        let mut v: usize = 0;
        while v < n
            invariant
                v <= n,
                states@ == Seq::new(v as nat, |u: int| NodeState::Finished),
                finish_times@ == Seq::new(v as nat, |u: int| 0i32),
            decreases n - v,
        {
            states.push(NodeState::Finished);
            finish_times.push(0);
            assert(states@ =~= Seq::new((v + 1) as nat, |u: int| NodeState::Finished));
            assert(finish_times@ =~= Seq::new((v + 1) as nat, |u: int| 0i32));
            v += 1;
        }
        let copy = dag.duplicate();
        proof {
            assert forall|i: int| 0 <= i < copy.nodes@.len() implies (
            #[trigger] copy.nodes@[i]).has_valid_execution_time() && copy.nodes@[i].id >= 0
                && can_run(copy.nodes@[i]) by {
                assert(can_run(dag.nodes@[i]));
                assert(dag.nodes@[i].id >= 0);
            }
            assert forall|i: int, j: int| 0 <= i < j < copy.nodes@.len() implies copy.nodes@[i].id
                != copy.nodes@[j].id by {
                assert(dag.nodes@[i].id != dag.nodes@[j].id);
            }
            assert forall|e: int| 0 <= e < copy.edges@.len() implies (
            #[trigger] copy.edges@[e]).source < copy.nodes@.len() && copy.edges@[e].target
                < copy.nodes@.len() && copy.edges@[e].communication_time >= 0 by {
                assert(dag.edges@[e].source < dag.nodes@.len());
            }
        }
        Ok(
            DagRun {
                dag: copy,
                heavy,
                period,
                next_release: first_release,
                active: false,
                job_id: 0,
                backlog: 0,
                states,
                finish_times,
                release_times: Vec::new(),
                finish_log: Vec::new(),
            },
        )
    }
}

/// Whether `runs` can be the tasks of a run: each is valid as the task of
/// its number.
pub open spec fn runs_wf(runs: Seq<DagRun>) -> bool {
    forall|d: int| 0 <= d < runs.len() ==> (#[trigger] runs[d])@.wf(d)
}

/// Whether every owner among `owners` is one of `count` tasks.
pub open spec fn owners_in_bounds(owners: Seq<Option<usize>>, count: int) -> bool {
    forall|c: int| 0 <= c < owners.len() && (#[trigger] owners[c]) is Some ==> owners[c]->0 < count
}

impl SchedulerEngine {
    /// An engine at time 0 with one idle core for each entry of `owners`,
    /// an empty ready queue and nothing recorded.
    pub fn new(
        runs: Vec<DagRun>,
        owners: Vec<Option<usize>>,
        policy: PreemptiveType,
        horizon: i32,
    ) -> (engine: SchedulerEngine)
        requires
            runs_wf(runs@),
            owners_in_bounds(owners@, runs@.len() as int),
            horizon >= 0,
        ensures
            engine@.wf(),
            engine.runs@ == runs@,
            engine.owners@ == owners@,
            engine.policy == policy,
            engine.horizon == horizon,
            engine.current_time == 0,
            engine.processor.cores@ == Seq::new(owners@.len(), |c: int| Core::idle()),
            engine.ready_queue@.len() == 0,
            engine.execution_order@.len() == 0,
            engine.events@.len() == 0,
            engine.degraded@.len() == 0,
            engine.busy@ == Seq::new(
                owners@.len(),
                |i: int| (CoreLog { core_id: i as usize, total_proc_time: 0 }),
            ),
    {
        let num_cores = owners.len();
        let processor = HomogeneousProcessor::new(num_cores);
        let mut busy: Vec<CoreLog> = Vec::new();
        let mut c: usize = 0;
        while c < num_cores
            invariant
                c <= num_cores,
                busy@ == Seq::new(
                    c as nat,
                    |i: int| (CoreLog { core_id: i as usize, total_proc_time: 0 }),
                ),
            decreases num_cores - c,
        {
            busy.push(CoreLog::new(c));
            assert(busy@ =~= Seq::new(
                (c + 1) as nat,
                |i: int| (CoreLog { core_id: i as usize, total_proc_time: 0 }),
            ));
            c += 1;
        }
        let engine = SchedulerEngine {
            runs,
            processor,
            owners,
            policy,
            horizon,
            current_time: 0,
            ready_queue: std::collections::VecDeque::new(),
            execution_order: Vec::new(),
            events: Vec::new(),
            busy,
            degraded: Vec::new(),
        };
        assert forall|d: int| 0 <= d < engine@.runs.len() implies (#[trigger] engine@.runs[d]).wf(
            d,
        ) by {
            assert(runs@[d]@.wf(d));
        }
        engine
    }
}

} // verus!
