use dag_sched_sim::dynfed::DynamicFederatedScheduler;
use dag_sched_sim::engine_model::PreemptiveType;
use dag_sched_sim::federated::{
    classify, dedicated_cores, federated, federated_plan, DagClassification,
};
use dag_sched_sim::graph_extension::{CustomError, Dag, NodeData, ParamKey};
use dag_sched_sim::log::JobEventTimes;
use dag_sched_sim::processor::HomogeneousProcessor;

fn chain(execution_times: &[i32], period: i32) -> Dag {
    let mut dag = Dag::new();
    let mut previous: Option<usize> = None;
    for (i, t) in execution_times.iter().enumerate() {
        let mut node = NodeData::new(i as i32, ParamKey::ExecutionTime, *t)
            .set_param(ParamKey::Priority, i as i32);
        if i == 0 {
            node = node.set_param(ParamKey::Period, period);
        }
        let v = dag.add_node_with_check(node).unwrap();
        if let Some(u) = previous {
            dag.add_edge(u, v, 0).unwrap();
        }
        previous = Some(v);
    }
    dag
}

#[test]
fn classification_follows_the_utilization() {
    assert_eq!(classify(11, 10), DagClassification::Heavy);
    assert_eq!(classify(10, 10), DagClassification::Light);
    assert_eq!(classify(3, 10), DagClassification::Light);
}

#[test]
fn dedicated_cores_round_up() {
    assert_eq!(dedicated_cores(20, 4, 10), Some(3));
    assert_eq!(dedicated_cores(16, 4, 10), Some(2));
    assert_eq!(dedicated_cores(17, 4, 10), Some(3));
    assert_eq!(dedicated_cores(4, 4, 10), Some(0));
    assert_eq!(dedicated_cores(20, 10, 10), None);
    assert_eq!(dedicated_cores(20, 12, 10), None);
}

#[test]
fn light_tasks_share_all_cores() {
    let dag_set = vec![chain(&[2, 3], 10), chain(&[4], 20)];
    let (plan, shared) = federated_plan(&dag_set, 2).unwrap();
    assert_eq!(shared, 2);
    assert_eq!(plan.len(), 2);
    assert!(plan.iter().all(|a| a.classification == DagClassification::Light && a.cores == 0));
    assert_eq!(plan[0].deadline, 10);
    assert_eq!(plan[1].deadline, 20);

    let result = federated(&dag_set, 2).unwrap();
    assert!(result.feasible);
    assert_eq!(result.shared_cores, 2);
    assert_eq!(result.records[0].schedule_length, Some(5));
    assert_eq!(result.records[1].schedule_length, Some(4));
}

#[test]
fn light_tasks_that_crowd_one_core_miss_their_deadline() {
    let dag_set = vec![chain(&[6], 10), chain(&[6], 10)];
    let result = federated(&dag_set, 1).unwrap();
    assert!(!result.feasible);
    assert_eq!(result.records[0].schedule_length, Some(6));
    assert_eq!(result.records[1].schedule_length, None);
    let result = federated(&dag_set, 2).unwrap();
    assert!(result.feasible);
}

#[test]
fn a_task_longer_than_its_deadline_gets_nothing() {
    let dag_set = vec![chain(&[6, 6], 10)];
    assert_eq!(federated_plan(&dag_set, 4).err(), Some(CustomError::InsufficientCores(0)));
    assert_eq!(federated(&dag_set, 4).err(), Some(CustomError::InsufficientCores(0)));
}

#[test]
fn a_task_without_deadline_is_a_configuration_fault() {
    let mut dag = Dag::new();
    dag.add_node_with_check(NodeData::new(0, ParamKey::ExecutionTime, 4)).unwrap();
    assert_eq!(federated_plan(&vec![dag], 4).err(), Some(CustomError::MissingDeadline));
}

#[test]
fn every_instance_is_released_and_finished() {
    let dag_set = vec![chain(&[2, 3], 10), chain(&[4], 20)];
    let mut scheduler =
        DynamicFederatedScheduler::new(&dag_set, &HomogeneousProcessor::new(2)).unwrap();
    assert_eq!(scheduler.engine.horizon, 20);
    let feasible = scheduler.schedule(PreemptiveType::NonPreemptive);
    assert!(feasible);
    let first = &scheduler.log.dag_set_log[0];
    assert_eq!(first.release_time, vec![0, 10]);
    assert_eq!(first.finish_time, vec![5, 15]);
    assert_eq!(first.response_time, vec![5, 5]);
    assert_eq!(first.worst_response_time, 5);
    let second = &scheduler.log.dag_set_log[1];
    assert_eq!(second.release_time, vec![0]);
    assert_eq!(second.finish_time, vec![4]);
    assert_eq!(second.worst_response_time, 4);
    for (d, log) in scheduler.log.dag_set_log.iter().enumerate() {
        for (release, finish) in log.release_time.iter().zip(log.finish_time.iter()) {
            assert!(finish - release <= scheduler.periods[d]);
        }
    }
    assert_eq!(scheduler.log.node_set_logs[0].len(), 8);
    assert_eq!(scheduler.log.node_set_logs[1].len(), 2);
    assert_eq!(scheduler.log.node_set_logs[0][4].job_id, 1);
    assert_eq!(scheduler.log.node_set_logs[0][4].event_time, JobEventTimes::StartTime(10));
    assert_eq!(scheduler.log.processor_log.core_logs[0].total_proc_time, 10);
    assert_eq!(scheduler.log.processor_log.core_logs[1].total_proc_time, 4);
}

#[test]
fn an_overrun_makes_the_run_infeasible_and_the_run_goes_on() {
    let dag_set = vec![chain(&[6], 10), chain(&[6], 10)];
    let mut scheduler =
        DynamicFederatedScheduler::new(&dag_set, &HomogeneousProcessor::new(1)).unwrap();
    let feasible = scheduler.schedule(PreemptiveType::NonPreemptive);
    assert!(!feasible);
    assert_eq!(scheduler.engine.current_time, 10);
    assert_eq!(scheduler.log.dag_set_log[0].worst_response_time, 6);
    assert_eq!(scheduler.log.dag_set_log[1].release_time, vec![0]);
    assert_eq!(scheduler.log.dag_set_log[1].finish_time, vec![i32::MAX]);
    assert_eq!(scheduler.log.dag_set_log[1].worst_response_time, i32::MAX);
}

#[test]
fn a_more_urgent_node_displaces_a_running_one() {
    let mut slow = Dag::new();
    slow.add_node_with_check(
        NodeData::new(0, ParamKey::ExecutionTime, 5)
            .set_param(ParamKey::Priority, 5)
            .set_param(ParamKey::Period, 12),
    )
    .unwrap();
    let mut urgent = Dag::new();
    let a = urgent
        .add_node_with_check(
            NodeData::new(0, ParamKey::ExecutionTime, 1)
                .set_param(ParamKey::Priority, 9)
                .set_param(ParamKey::Period, 12),
        )
        .unwrap();
    let b = urgent
        .add_node_with_check(
            NodeData::new(1, ParamKey::ExecutionTime, 2).set_param(ParamKey::Priority, 1),
        )
        .unwrap();
    urgent.add_edge(a, b, 0).unwrap();
    let dag_set = vec![slow, urgent];

    let mut scheduler =
        DynamicFederatedScheduler::new(&dag_set, &HomogeneousProcessor::new(1)).unwrap();
    assert!(scheduler.schedule(PreemptiveType::Preemptive));
    let events: Vec<JobEventTimes> =
        scheduler.log.node_set_logs[0].iter().map(|log| log.event_time).collect();
    assert_eq!(
        events,
        vec![
            JobEventTimes::StartTime(0),
            JobEventTimes::FinishTime(5),
        ]
    );
    let events: Vec<(usize, JobEventTimes)> =
        scheduler.log.node_set_logs[1].iter().map(|log| (log.node_id, log.event_time)).collect();
    assert_eq!(
        events,
        vec![
            (0, JobEventTimes::StartTime(5)),
            (0, JobEventTimes::FinishTime(6)),
            (1, JobEventTimes::StartTime(6)),
            (1, JobEventTimes::FinishTime(8)),
        ]
    );
}

#[test]
fn a_displaced_node_resumes_with_what_was_left() {
    let mut background = Dag::new();
    background
        .add_node_with_check(
            NodeData::new(0, ParamKey::ExecutionTime, 5)
                .set_param(ParamKey::Priority, 5)
                .set_param(ParamKey::Period, 12),
        )
        .unwrap();
    let mut urgent = Dag::new();
    let a = urgent
        .add_node_with_check(
            NodeData::new(0, ParamKey::ExecutionTime, 1)
                .set_param(ParamKey::Priority, 0)
                .set_param(ParamKey::Period, 12),
        )
        .unwrap();
    let b = urgent
        .add_node_with_check(
            NodeData::new(1, ParamKey::ExecutionTime, 2).set_param(ParamKey::Priority, 1),
        )
        .unwrap();
    urgent.add_edge(a, b, 3).unwrap();
    let dag_set = vec![background, urgent];

    let mut scheduler =
        DynamicFederatedScheduler::new(&dag_set, &HomogeneousProcessor::new(1)).unwrap();
    assert!(scheduler.schedule(PreemptiveType::Preemptive));
    let events: Vec<JobEventTimes> =
        scheduler.log.node_set_logs[0].iter().map(|log| log.event_time).collect();
    assert_eq!(
        events,
        vec![
            JobEventTimes::StartTime(1),
            JobEventTimes::PreemptedTime(4),
            JobEventTimes::ResumeTime(6),
            JobEventTimes::FinishTime(8),
        ]
    );
    let events: Vec<(usize, JobEventTimes)> =
        scheduler.log.node_set_logs[1].iter().map(|log| (log.node_id, log.event_time)).collect();
    assert_eq!(
        events,
        vec![
            (0, JobEventTimes::StartTime(0)),
            (0, JobEventTimes::FinishTime(1)),
            (1, JobEventTimes::StartTime(4)),
            (1, JobEventTimes::FinishTime(6)),
        ]
    );
    assert_eq!(scheduler.log.dag_set_log[0].response_time, vec![8]);
}

#[test]
fn every_release_has_its_own_times() {
    let dag_set = vec![chain(&[6], 15), chain(&[4], 5)];
    let mut scheduler =
        DynamicFederatedScheduler::new(&dag_set, &HomogeneousProcessor::new(1)).unwrap();
    assert_eq!(scheduler.engine.horizon, 15);
    assert!(!scheduler.schedule(PreemptiveType::NonPreemptive));
    let log = &scheduler.log.dag_set_log[1];
    assert_eq!(log.release_time, vec![0, 5, 10]);
    assert_eq!(log.finish_time, vec![10, 14, i32::MAX]);
    assert_eq!(log.response_time, vec![10, 9, i32::MAX - 10]);
    assert_eq!(scheduler.log.dag_set_log[0].response_time, vec![6]);
}
