use dag_sched_sim::fixed_priority_scheduler::FixedPriorityScheduler;
use dag_sched_sim::graph_extension::{Dag, NodeData, ParamKey};
use dag_sched_sim::log::{JobEventTimes, JobLog};
use dag_sched_sim::processor::HomogeneousProcessor;

fn create_node(id: i32, key: ParamKey, value: i32) -> NodeData {
    NodeData::new(id, key, value)
}

fn add_params(dag: &mut Dag, node: usize, key: ParamKey, value: i32) {
    assert!(dag.add_param(node, key, value));
}

fn start_time(logs: &[JobLog], node_id: usize) -> (usize, i32) {
    for log in logs {
        if log.node_id == node_id {
            if let JobEventTimes::StartTime(t) = log.event_time {
                return (log.core_id, t);
            }
        }
    }
    panic!("no start of node {}", node_id);
}

fn finish_time(logs: &[JobLog], node_id: usize) -> (usize, i32) {
    for log in logs {
        if log.node_id == node_id {
            if let JobEventTimes::FinishTime(t) = log.event_time {
                return (log.core_id, t);
            }
        }
    }
    panic!("no finish of node {}", node_id);
}

fn sample_dag_with(third_execution_time: i32, communication_time: i32) -> Dag {
    let mut dag = Dag::new();
    //cX is the Xth critical node.
    let c0 = dag.add_node_with_check(create_node(0, ParamKey::ExecutionTime, 52)).unwrap();
    let c1 = dag.add_node_with_check(create_node(1, ParamKey::ExecutionTime, 40)).unwrap();
    add_params(&mut dag, c0, ParamKey::Priority, 0);
    add_params(&mut dag, c0, ParamKey::Period, 100);
    add_params(&mut dag, c1, ParamKey::Priority, 0);
    //nY_X is the Yth suc node of cX.
    let n0_0 = dag
        .add_node_with_check(create_node(2, ParamKey::ExecutionTime, third_execution_time))
        .unwrap();
    let n1_0 = dag.add_node_with_check(create_node(3, ParamKey::ExecutionTime, 10)).unwrap();
    add_params(&mut dag, n0_0, ParamKey::Priority, 2);
    add_params(&mut dag, n1_0, ParamKey::Priority, 1);

    //create critical path edges
    dag.add_edge(c0, c1, communication_time).unwrap();

    //create non-critical path edges
    dag.add_edge(c0, n0_0, communication_time).unwrap();
    dag.add_edge(c0, n1_0, communication_time).unwrap();
    dag
}

fn sample_dag(third_execution_time: i32) -> Dag {
    sample_dag_with(third_execution_time, 0)
}

#[test]
fn test_fixed_priority_scheduler_schedule_normal() {
    // With the communication time 1 on every edge, the successors of the
    // first node become ready one tick after it has finished.
    let dag = sample_dag_with(12, 1);
    let mut fixed_priority_scheduler =
        FixedPriorityScheduler::new(&dag, &HomogeneousProcessor::new(2)).unwrap();
    let result = fixed_priority_scheduler.schedule().unwrap();
    assert_eq!(result.0, 93);
    assert_eq!(result.1, vec![0, 1, 3, 2]);

    // Without communication time.
    let dag = sample_dag(12);
    let mut fixed_priority_scheduler =
        FixedPriorityScheduler::new(&dag, &HomogeneousProcessor::new(2)).unwrap();
    let result = fixed_priority_scheduler.schedule().unwrap();

    assert_eq!(result.0, 92);
    assert_eq!(result.1, vec![0, 1, 3, 2]);
}

#[test]
fn test_fixed_priority_scheduler_schedule_concurrent_task() {
    // With the communication time 1 on every edge.
    let dag = sample_dag_with(10, 1);
    let mut fixed_priority_scheduler =
        FixedPriorityScheduler::new(&dag, &HomogeneousProcessor::new(3)).unwrap();
    let result = fixed_priority_scheduler.schedule().unwrap();
    assert_eq!(result.0, 93);
    assert_eq!(result.1, vec![0, 1, 3, 2]);

    // Without communication time.
    let dag = sample_dag(10);
    let mut fixed_priority_scheduler =
        FixedPriorityScheduler::new(&dag, &HomogeneousProcessor::new(3)).unwrap();
    let result = fixed_priority_scheduler.schedule().unwrap();

    assert_eq!(result.0, 92);
    assert_eq!(result.1, vec![0, 1, 3, 2]);
}

#[test]
fn test_fixed_priority_scheduler_schedule_used_twice_for_same_dag() {
    let mut dag = Dag::new();
    //cX is the Xth critical node.
    let c0 = dag.add_node_with_check(create_node(0, ParamKey::ExecutionTime, 1)).unwrap();
    add_params(&mut dag, c0, ParamKey::Period, 100);
    let mut fixed_priority_scheduler =
        FixedPriorityScheduler::new(&dag, &HomogeneousProcessor::new(1)).unwrap();
    let result = fixed_priority_scheduler.schedule().unwrap();
    assert_eq!(result.0, 1);
    assert_eq!(result.1, vec![0]);

    let mut fixed_priority_scheduler =
        FixedPriorityScheduler::new(&dag, &HomogeneousProcessor::new(1)).unwrap();
    let result = fixed_priority_scheduler.schedule().unwrap();
    assert_eq!(result.0, 1);
    assert_eq!(result.1, vec![0]);
}

#[test]
fn test_fixed_priority_scheduler_log_normal() {
    // With the communication time 1 on every edge.
    let dag = sample_dag_with(12, 1);
    let mut fixed_priority_scheduler =
        FixedPriorityScheduler::new(&dag, &HomogeneousProcessor::new(2)).unwrap();
    assert_eq!(fixed_priority_scheduler.schedule().unwrap().0, 93);
    let log = fixed_priority_scheduler.get_log();
    assert_eq!(log.processor_log.core_logs[0].total_proc_time, 92);
    assert_eq!(log.processor_log.core_logs[1].total_proc_time, 22);
    assert_eq!(start_time(&log.node_logs, 0), (0, 0));
    assert_eq!(finish_time(&log.node_logs, 0), (0, 52));
    assert_eq!(start_time(&log.node_logs, 1), (0, 53));
    assert_eq!(finish_time(&log.node_logs, 1), (0, 93));

    // Without communication time.
    let dag = sample_dag(12);
    let mut fixed_priority_scheduler =
        FixedPriorityScheduler::new(&dag, &HomogeneousProcessor::new(2)).unwrap();
    let (schedule_length, _) = fixed_priority_scheduler.schedule().unwrap();
    let log = fixed_priority_scheduler.get_log();

    let utilizations: Vec<f32> = log
        .processor_log
        .core_logs
        .iter()
        .map(|core_log| core_log.total_proc_time as f32 / schedule_length as f32)
        .collect();
    let average_utilization = utilizations.iter().sum::<f32>() / utilizations.len() as f32;
    let variance_utilization = utilizations
        .iter()
        .map(|utilization| (utilization - average_utilization).powi(2))
        .sum::<f32>()
        / utilizations.len() as f32;
    assert_eq!(average_utilization, 0.61956525);
    assert_eq!(variance_utilization, 0.14473063);

    assert_eq!(log.processor_log.core_logs[0].core_id, 0);
    assert_eq!(log.processor_log.core_logs[0].total_proc_time, 92);
    assert_eq!(utilizations[0], 1.0);

    assert_eq!(start_time(&log.node_logs, 0), (0, 0));
    assert_eq!(finish_time(&log.node_logs, 0), (0, 52));
    assert_eq!(log.node_logs[0].core_id, 0);
    assert_eq!(log.node_logs[0].dag_id, 0);
    assert_eq!(log.node_logs[0].node_id, 0);

    assert_eq!(start_time(&log.node_logs, 1), (0, 52));
    assert_eq!(finish_time(&log.node_logs, 1), (0, 92));
    assert_eq!(log.node_logs[2].core_id, 0);
    assert_eq!(log.node_logs[2].dag_id, 0);
    assert_eq!(log.node_logs[2].node_id, 1);
}

#[test]
fn communication_time_delays_the_successor() {
    let mut dag = Dag::new();
    let a = dag.add_node_with_check(create_node(0, ParamKey::ExecutionTime, 5)).unwrap();
    let b = dag.add_node_with_check(create_node(1, ParamKey::ExecutionTime, 3)).unwrap();
    dag.add_edge(a, b, 4).unwrap();
    let mut scheduler = FixedPriorityScheduler::new(&dag, &HomogeneousProcessor::new(1)).unwrap();
    let (length, order) = scheduler.schedule().unwrap();
    assert_eq!(length, 12);
    assert_eq!(order, vec![0, 1]);
    assert_eq!(start_time(&scheduler.get_log().node_logs, 1), (0, 9));
}

#[test]
fn empty_dag_takes_no_time() {
    let dag = Dag::new();
    let mut scheduler = FixedPriorityScheduler::new(&dag, &HomogeneousProcessor::new(1)).unwrap();
    let (length, order) = scheduler.schedule().unwrap();
    assert_eq!(length, 0);
    assert!(order.is_empty());
}

#[test]
fn the_schedule_length_is_the_latest_finish_time() {
    for cores in 1..4 {
        let dag = sample_dag(12);
        let mut scheduler =
            FixedPriorityScheduler::new(&dag, &HomogeneousProcessor::new(cores)).unwrap();
        let (length, order) = scheduler.schedule().unwrap();
        let finish_times = &scheduler.engine.runs[0].finish_times;
        assert_eq!(finish_times.iter().copied().max(), Some(length));
        assert_eq!(order.len(), 4);
        assert!(length >= 92);
        assert!(length <= 52 + 40 + 12 + 10);
    }
    let dag = sample_dag(12);
    let mut scheduler = FixedPriorityScheduler::new(&dag, &HomogeneousProcessor::new(1)).unwrap();
    assert_eq!(scheduler.schedule().unwrap().0, 114);
}

#[test]
fn a_fresh_scheduler_holds_the_graph_as_given() {
    let mut dag = Dag::new();
    let a = dag
        .add_node_with_check(
            create_node(7, ParamKey::ExecutionTime, 2).set_param(ParamKey::DagId, 5),
        )
        .unwrap();
    let b = dag.add_node_with_check(create_node(3, ParamKey::ExecutionTime, 1)).unwrap();
    dag.add_edge(a, b, 1).unwrap();
    let processor = HomogeneousProcessor::new(2);

    let mut earlier = FixedPriorityScheduler::new(&dag, &processor).unwrap();
    let first = earlier.schedule().unwrap();

    let mut scheduler = FixedPriorityScheduler::new(&dag, &processor).unwrap();
    let held = scheduler.get_dag();
    assert_eq!(held.nodes, dag.nodes);
    assert_eq!(held.edges, dag.edges);
    assert_eq!(scheduler.get_processor().get_number_of_cores(), 2);
    assert!(scheduler.get_log().node_logs.is_empty());
    assert!(scheduler.get_log().processor_log.core_logs.iter().all(|c| c.total_proc_time == 0));
    assert_eq!(scheduler.get_log().processor_log.core_logs.len(), 2);
    assert_eq!(scheduler.schedule().unwrap(), first);
    assert_eq!(first, (4, vec![0, 1]));

    // The events name the nodes by their identity.
    let named: Vec<usize> = scheduler.get_log().node_logs.iter().map(|log| log.node_id).collect();
    assert_eq!(named, vec![7, 7, 3, 3]);
    assert_eq!(scheduler.get_dag().nodes, dag.nodes);
}

#[test]
fn a_node_with_a_negative_identity_is_not_run() {
    let mut dag = Dag::new();
    dag.add_node_with_check(create_node(0, ParamKey::ExecutionTime, 2)).unwrap();
    dag.add_dummy_sink_node().unwrap();
    dag.update_param(1, ParamKey::ExecutionTime, 1);
    assert_eq!(
        FixedPriorityScheduler::new(&dag, &HomogeneousProcessor::new(1)).err(),
        Some(dag_sched_sim::graph_extension::CustomError::NegativeId(-2))
    );
}
