use dag_sched_sim::graph_extension::{NodeData, ParamKey};
use dag_sched_sim::processor::{Core, HomogeneousProcessor, ProcessResult, ProcessorBase};

fn node(id: i32, execution_time: i32) -> NodeData {
    NodeData::new(id, ParamKey::ExecutionTime, execution_time)
}

#[test]
fn a_busy_core_takes_no_other_node() {
    let mut processor = HomogeneousProcessor::new(2);
    assert_eq!(processor.get_number_of_cores(), 2);
    assert!(processor.allocate_specific_core(1, &node(0, 3)));
    assert!(!processor.allocate_specific_core(1, &node(1, 3)));
    assert_eq!(processor.cores[1].processing_node, Some(node(0, 3)));
    assert_eq!(processor.cores[1].remain_proc_time, 3);
    assert_eq!(processor.cores[0], Core { processing_node: None, remain_proc_time: 0 });
    assert!(processor.allocate_specific_core(0, &node(1, 0)));
    assert_eq!(processor.cores[0].remain_proc_time, 0);
    assert_eq!(
        processor.process(),
        vec![ProcessResult::Done(node(1, 0)), ProcessResult::Continue]
    );
}

#[test]
fn the_first_idle_core_is_taken() {
    let mut processor = HomogeneousProcessor::new(3);
    assert_eq!(processor.get_idle_core_index(), Some(0));
    assert!(processor.allocate_any_idle_core(&node(0, 2)));
    assert_eq!(processor.get_idle_core_index(), Some(1));
    assert!(processor.allocate_any_idle_core(&node(1, 2)));
    assert!(processor.allocate_any_idle_core(&node(2, 2)));
    assert_eq!(processor.get_idle_core_index(), None);
    assert!(!processor.allocate_any_idle_core(&node(3, 2)));
    let on_cores: Vec<i32> =
        processor.cores.iter().map(|core| core.processing_node.unwrap().id).collect();
    assert_eq!(on_cores, vec![0, 1, 2]);
}

#[test]
fn a_tick_takes_one_unit_off_every_busy_core() {
    let mut processor = HomogeneousProcessor::new(3);
    assert!(processor.allocate_specific_core(0, &node(0, 1)));
    assert!(processor.allocate_specific_core(2, &node(1, 2)));
    assert_eq!(
        processor.process(),
        vec![ProcessResult::Done(node(0, 1)), ProcessResult::Idle, ProcessResult::Continue]
    );
    assert_eq!(processor.get_idle_core_index(), Some(0));
    assert_eq!(processor.cores[2].remain_proc_time, 1);
    assert_eq!(
        processor.process(),
        vec![ProcessResult::Idle, ProcessResult::Idle, ProcessResult::Done(node(1, 2))]
    );
    assert_eq!(processor.process(), vec![ProcessResult::Idle; 3]);
}

#[test]
fn a_displaced_node_keeps_what_is_left() {
    let mut processor = HomogeneousProcessor::new(1);
    assert!(processor.allocate_specific_core(0, &node(4, 5)));
    processor.process();
    processor.process();
    let evicted = processor.preempt_execution(0).unwrap();
    assert_eq!(evicted.id, 4);
    assert_eq!(evicted.execution_time, Some(3));
    assert_eq!(evicted.is_preempted, Some(1));
    assert_eq!(processor.preempt_execution(0), None);
    assert_eq!(processor.preempt_execution(3), None);
    assert_eq!(processor.get_idle_core_index(), Some(0));
}

#[test]
fn the_processor_is_there_as_a_trait() {
    fn fill<P: ProcessorBase>(cores: usize) -> (P, bool, bool) {
        let mut processor = P::new(cores);
        let first = processor.allocate_any_idle_core(&node(0, 1));
        let second = processor.allocate_any_idle_core(&node(1, 1));
        (processor, first, second)
    }
    let (mut processor, first, second) = fill::<HomogeneousProcessor>(1);
    assert!(first);
    assert!(!second);
    assert_eq!(ProcessorBase::process(&mut processor), vec![ProcessResult::Done(node(0, 1))]);
    assert_eq!(ProcessorBase::get_number_of_cores(&processor), 1);
    assert_eq!(ProcessorBase::get_idle_core_index(&processor), Some(0));
}

#[test]
fn a_core_alone() {
    let mut core = Core::new();
    assert!(core.get_is_idle());
    assert_eq!(core.process(), ProcessResult::Idle);
    assert!(core.allocate(&node(0, 2)));
    assert!(!core.allocate(&node(1, 2)));
    assert_eq!(core.process(), ProcessResult::Continue);
    assert_eq!(core.process(), ProcessResult::Done(node(0, 2)));
    assert!(core.get_is_idle());
    assert_eq!(core.preempt_execution(), None);
}
