//! A pool of identical cores, each running at most one node at a time.

use crate::graph_extension::{NodeData, ParamKey};
use vstd::prelude::*;

verus! {

/// What one core did during one tick.
#[derive(Debug, Clone, Copy, PartialEq, Eq, Structural)]
pub enum ProcessResult {
    /// The core had nothing to run.
    Idle,
    /// The core ran its node, which has more to do.
    Continue,
    /// The core ran its node to the end and is idle again.
    Done(NodeData),
}

/// One core: the node it runs, if any, and how long that node has yet to run.
#[derive(Debug, Clone, Copy, PartialEq, Eq, Structural)]
pub struct Core {
    pub processing_node: Option<NodeData>,
    pub remain_proc_time: i32,
}

impl Core {
    /// The time left on the node of an occupied core is not negative; an
    /// idle core has none.
    pub open spec fn wf(self) -> bool {
        match self.processing_node {
            Some(_) => self.remain_proc_time >= 0,
            None => self.remain_proc_time == 0,
        }
    }

    pub open spec fn is_idle(self) -> bool {
        self.processing_node is None
    }

    /// The idle core.
    pub open spec fn idle() -> Core {
        Core { processing_node: None, remain_proc_time: 0 }
    }

    /// The core that has just taken up `node`.
    pub open spec fn running(node: NodeData) -> Core {
        Core { processing_node: Some(node), remain_proc_time: node.execution_time->0 }
    }

    /// The core after one tick.
    pub open spec fn ticked(self) -> Core {
        if self.is_idle() || self.remain_proc_time <= 1 {
            Core::idle()
        } else {
            Core {
                processing_node: self.processing_node,
                remain_proc_time: (self.remain_proc_time - 1) as i32,
            }
        }
    }

    /// What the core reports of one tick.
    pub open spec fn tick_result(self) -> ProcessResult {
        match self.processing_node {
            None => ProcessResult::Idle,
            Some(node) => if self.remain_proc_time <= 1 {
                ProcessResult::Done(node)
            } else {
                ProcessResult::Continue
            },
        }
    }

    /// The node that leaves the core when it is preempted: the node it ran,
    /// with what is left of its execution time and marked as preempted.
    pub open spec fn preempted_node(self) -> NodeData {
        self.processing_node->0.with_param(
            ParamKey::ExecutionTime,
            Some(self.remain_proc_time),
        ).with_param(ParamKey::IsPreempted, Some(1i32))
    }

    pub fn new() -> (core: Core)
        ensures
            core == Core::idle(),
    {
        Core { processing_node: None, remain_proc_time: 0 }
    }

    pub fn get_is_idle(&self) -> (idle: bool)
        ensures
            idle == self.is_idle(),
    {
        self.processing_node.is_none()
    }

    /// Takes up `node_data` if the core is idle; says whether it did.
    pub fn allocate(&mut self, node_data: &NodeData) -> (allocated: bool)
        requires
            old(self).wf(),
            can_run(*node_data),
        ensures
            final(self).wf(),
            allocated == old(self).is_idle(),
            *final(self) == if allocated {
                Core::running(*node_data)
            } else {
                *old(self)
            },
    {
        if self.processing_node.is_some() {
            return false;
        }
        match node_data.execution_time {
            Some(time) => {
                self.processing_node = Some(*node_data);
                self.remain_proc_time = time;
            },
            None => {},
        }
        true
    }

    /// Runs the core for one tick. A node with one tick left, or with
    /// nothing left at all, is done with it.
    pub fn process(&mut self) -> (result: ProcessResult)
        requires
            old(self).wf(),
        ensures
            final(self).wf(),
            *final(self) == old(self).ticked(),
            result == old(self).tick_result(),
    {
        match self.processing_node {
            None => ProcessResult::Idle,
            Some(node) => {
                if self.remain_proc_time <= 1 {
                    self.processing_node = None;
                    self.remain_proc_time = 0;
                    ProcessResult::Done(node)
                } else {
                    self.remain_proc_time = self.remain_proc_time - 1;
                    ProcessResult::Continue
                }
            },
        }
    }

    /// Takes the node off the core before it is done. The node comes back
    /// with what is left of its execution time, marked as preempted.
    pub fn preempt_execution(&mut self) -> (evicted: Option<NodeData>)
        requires
            old(self).wf(),
        ensures
            final(self).wf(),
            *final(self) == Core::idle(),
            evicted == if old(self).is_idle() {
                None
            } else {
                Some(old(self).preempted_node())
            },
    {
        match self.processing_node {
            None => None,
            Some(node) => {
                let left = self.remain_proc_time;
                self.processing_node = None;
                self.remain_proc_time = 0;
                Some(
                    node.set_param(ParamKey::ExecutionTime, left).set_param(
                        ParamKey::IsPreempted,
                        1,
                    ),
                )
            },
        }
    }
}

/// Whether a core can take up `node`: it has an execution time, which is
/// not negative.
pub open spec fn can_run(node: NodeData) -> bool {
    node.execution_time is Some && node.execution_time->0 >= 0
}

/// The first idle core among `cores` from `from` on.
pub open spec fn first_idle_from(cores: Seq<Core>, from: int) -> Option<usize>
    decreases cores.len() - from,
{
    if from < 0 || from >= cores.len() {
        None
    } else if cores[from].is_idle() {
        Some(from as usize)
    } else {
        first_idle_from(cores, from + 1)
    }
}

/// The first idle core among `cores`.
pub open spec fn first_idle(cores: Seq<Core>) -> Option<usize> {
    first_idle_from(cores, 0)
}

/// The first idle core is idle, and no core before it is.
pub proof fn lemma_first_idle(cores: Seq<Core>, from: int)
    requires
        0 <= from <= cores.len() <= usize::MAX,
    ensures
        match first_idle_from(cores, from) {
            Some(c) => from <= c < cores.len() && cores[c as int].is_idle() && forall|i: int|
                from <= i < c ==> !(#[trigger] cores[i]).is_idle(),
            None => forall|i: int| from <= i < cores.len() ==> !(#[trigger] cores[i]).is_idle(),
        },
    decreases cores.len() - from,
{
    if from < cores.len() && !cores[from].is_idle() {
        lemma_first_idle(cores, from + 1);
    }
}

/// A fixed pool of identical cores, addressed by index.
#[derive(Debug, Clone)]
pub struct HomogeneousProcessor {
    pub cores: Vec<Core>,
}

impl HomogeneousProcessor {
    pub open spec fn wf(&self) -> bool {
        forall|i: int| 0 <= i < self.cores@.len() ==> (#[trigger] self.cores@[i]).wf()
    }

    /// A processor of `num_cores` idle cores.
    pub fn new(num_cores: usize) -> (processor: HomogeneousProcessor)
        ensures
            processor.wf(),
            processor.cores@ == Seq::new(num_cores as nat, |i: int| Core::idle()),
    {
        let mut cores: Vec<Core> = Vec::new();
        let mut i: usize = 0;
        while i < num_cores
            invariant
                i <= num_cores,
                cores@ == Seq::new(i as nat, |i: int| Core::idle()),
            decreases num_cores - i,
        {
            cores.push(Core::new());
            assert(cores@ =~= Seq::new((i + 1) as nat, |i: int| Core::idle()));
            i += 1;
        }
        HomogeneousProcessor { cores }
    }

    /// A copy of this processor in its present state.
    pub fn duplicate(&self) -> (copy: HomogeneousProcessor)
        ensures
            copy.cores@ == self.cores@,
    {
        let mut cores: Vec<Core> = Vec::new();
        let mut i: usize = 0;
        while i < self.cores.len()
            invariant
                i <= self.cores@.len(),
                cores@ == self.cores@.subrange(0, i as int),
            decreases self.cores@.len() - i,
        {
            cores.push(self.cores[i]);
            assert(cores@ =~= self.cores@.subrange(0, i + 1));
            i += 1;
        }
        assert(self.cores@.subrange(0, self.cores@.len() as int) =~= self.cores@);
        HomogeneousProcessor { cores }
    }

    pub fn get_number_of_cores(&self) -> (n: usize)
        ensures
            n == self.cores@.len(),
    {
        self.cores.len()
    }

    /// The idle core of lowest index, if any core is idle.
    pub fn get_idle_core_index(&self) -> (found: Option<usize>)
        ensures
            found == first_idle(self.cores@),
    {
        let mut i: usize = 0;
        while i < self.cores.len()
            invariant
                i <= self.cores@.len(),
                first_idle(self.cores@) == first_idle_from(self.cores@, i as int),
            decreases self.cores@.len() - i,
        {
            if self.cores[i].get_is_idle() {
                return Some(i);
            }
            i += 1;
        }
        None
    }

    /// Binds `node_data` to the core `core_id` with all its execution time
    /// before it; fails, changing nothing, exactly when that core is
    /// occupied. No other core changes.
    pub fn allocate_specific_core(&mut self, core_id: usize, node_data: &NodeData) -> (allocated:
        bool)
        requires
            old(self).wf(),
            core_id < old(self).cores@.len(),
            can_run(*node_data),
        ensures
            final(self).wf(),
            allocated == old(self).cores@[core_id as int].is_idle(),
            final(self).cores@ == if allocated {
                old(self).cores@.update(core_id as int, Core::running(*node_data))
            } else {
                old(self).cores@
            },
    {
        let mut core: Core = self.cores[core_id];
        assert(core.wf());
        let allocated = core.allocate(node_data);
        if allocated {
            self.cores[core_id] = core;
        }
        allocated
    }

    /// Binds `node_data` to the idle core of lowest index; fails, changing
    /// nothing, exactly when no core is idle.
    pub fn allocate_any_idle_core(&mut self, node_data: &NodeData) -> (allocated: bool)
        requires
            old(self).wf(),
            can_run(*node_data),
        ensures
            final(self).wf(),
            allocated == (first_idle(old(self).cores@) is Some),
            final(self).cores@ == if allocated {
                old(self).cores@.update(
                    first_idle(old(self).cores@)->0 as int,
                    Core::running(*node_data),
                )
            } else {
                old(self).cores@
            },
    {
        proof {
            assert(self.cores@.len() == self.cores.len());
            lemma_first_idle(self.cores@, 0);
        }
        match self.get_idle_core_index() {
            Some(core_id) => self.allocate_specific_core(core_id, node_data),
            None => false,
        }
    }

    /// Takes the node off the core `core_id`, if that core exists and runs
    /// one. No other core changes.
    pub fn preempt_execution(&mut self, core_id: usize) -> (evicted: Option<NodeData>)
        requires
            old(self).wf(),
        ensures
            final(self).wf(),
            evicted == if core_id < old(self).cores@.len() && !old(self).cores@[core_id as int].is_idle() {
                Some(old(self).cores@[core_id as int].preempted_node())
            } else {
                None
            },
            final(self).cores@ == if evicted is Some {
                old(self).cores@.update(core_id as int, Core::idle())
            } else {
                old(self).cores@
            },
    {
        if core_id >= self.cores.len() {
            return None;
        }
        let mut core: Core = self.cores[core_id];
        assert(core.wf());
        let evicted = core.preempt_execution();
        if evicted.is_some() {
            self.cores[core_id] = core;
        }
        evicted
    }

    /// Runs every core for one tick and reports, core by core, what it did.
    pub fn process(&mut self) -> (results: Vec<ProcessResult>)
        requires
            old(self).wf(),
        ensures
            final(self).wf(),
            final(self).cores@ == old(self).cores@.map_values(|core: Core| core.ticked()),
            results@ == old(self).cores@.map_values(|core: Core| core.tick_result()),
    {
        let n = self.cores.len();
        let mut results: Vec<ProcessResult> = Vec::new();
        let mut i: usize = 0;
        while i < n
            invariant
                n == old(self).cores@.len(),
                self.cores@.len() == n,
                i <= n,
                results@.len() == i,
                forall|j: int| 0 <= j < i ==> results@[j] == old(self).cores@[j].tick_result(),
                forall|j: int|
                    0 <= j < i ==> self.cores@[j] == old(self).cores@[j].ticked()
                        && self.cores@[j].wf(),
                forall|j: int| i <= j < n ==> self.cores@[j] == old(self).cores@[j],
                old(self).wf(),
            decreases n - i,
        {
            let mut core: Core = self.cores[i];
            assert(core.wf());
            let result = core.process();
            self.cores[i] = core;
            results.push(result);
            i += 1;
        }
        assert(self.cores@ =~= old(self).cores@.map_values(|core: Core| core.ticked()));
        assert(results@ =~= old(self).cores@.map_values(|core: Core| core.tick_result()));
        results
    }
}

/// What the scheduling engine asks of a processor.
pub trait ProcessorBase: Sized {
    /// The cores in their present state.
    spec fn core_states(&self) -> Seq<Core>;

    /// Whether every core is in a consistent state.
    spec fn is_consistent(&self) -> bool;

    /// A processor of `num_cores` idle cores.
    fn new(num_cores: usize) -> (processor: Self)
        ensures
            processor.is_consistent(),
            processor.core_states() == Seq::new(num_cores as nat, |i: int| Core::idle()),
    ;

    /// Binds `node_data` to the core `core_id`; fails, changing nothing,
    /// exactly when that core is occupied.
    fn allocate_specific_core(&mut self, core_id: usize, node_data: &NodeData) -> (allocated: bool)
        requires
            old(self).is_consistent(),
            core_id < old(self).core_states().len(),
            can_run(*node_data),
        ensures
            final(self).is_consistent(),
            allocated == old(self).core_states()[core_id as int].is_idle(),
            final(self).core_states() == if allocated {
                old(self).core_states().update(core_id as int, Core::running(*node_data))
            } else {
                old(self).core_states()
            },
    ;

    /// Binds `node_data` to the idle core of lowest index; fails, changing
    /// nothing, exactly when no core is idle.
    fn allocate_any_idle_core(&mut self, node_data: &NodeData) -> (allocated: bool)
        requires
            old(self).is_consistent(),
            can_run(*node_data),
        ensures
            final(self).is_consistent(),
            allocated == (first_idle(old(self).core_states()) is Some),
            final(self).core_states() == if allocated {
                old(self).core_states().update(
                    first_idle(old(self).core_states())->0 as int,
                    Core::running(*node_data),
                )
            } else {
                old(self).core_states()
            },
    ;

    /// Runs every core for one tick and reports, core by core, what it did.
    fn process(&mut self) -> (results: Vec<ProcessResult>)
        requires
            old(self).is_consistent(),
        ensures
            final(self).is_consistent(),
            final(self).core_states() == old(self).core_states().map_values(
                |core: Core| core.ticked(),
            ),
            results@ == old(self).core_states().map_values(|core: Core| core.tick_result()),
    ;

    /// The number of cores.
    fn get_number_of_cores(&self) -> (n: usize)
        ensures
            n == self.core_states().len(),
    ;

    /// The idle core of lowest index, if any core is idle.
    fn get_idle_core_index(&self) -> (found: Option<usize>)
        ensures
            found == first_idle(self.core_states()),
    ;
}

impl ProcessorBase for HomogeneousProcessor {
    open spec fn core_states(&self) -> Seq<Core> {
        self.cores@
    }

    open spec fn is_consistent(&self) -> bool {
        self.wf()
    }

    fn new(num_cores: usize) -> (processor: Self) {
        HomogeneousProcessor::new(num_cores)
    }

    fn allocate_specific_core(&mut self, core_id: usize, node_data: &NodeData) -> (allocated: bool) {
        HomogeneousProcessor::allocate_specific_core(self, core_id, node_data)
    }

    fn allocate_any_idle_core(&mut self, node_data: &NodeData) -> (allocated: bool) {
        HomogeneousProcessor::allocate_any_idle_core(self, node_data)
    }

    fn process(&mut self) -> (results: Vec<ProcessResult>) {
        HomogeneousProcessor::process(self)
    }

    fn get_number_of_cores(&self) -> (n: usize) {
        HomogeneousProcessor::get_number_of_cores(self)
    }

    fn get_idle_core_index(&self) -> (found: Option<usize>) {
        HomogeneousProcessor::get_idle_core_index(self)
    }
}

} // verus!
