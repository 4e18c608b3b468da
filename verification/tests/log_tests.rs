use dag_sched_sim::engine::sort_ready_queue;
use dag_sched_sim::engine_model::PreemptiveType;
use dag_sched_sim::fixed_priority_scheduler::FixedPriorityScheduler;
use dag_sched_sim::graph_extension::{CustomError, Dag, NodeData, ParamKey};
use dag_sched_sim::log::{
    CoreLog, DAGInfo, DAGLog, DAGSchedulerLog, DAGSetInfo, DAGSetSchedulerLog, JobEventTimes,
    JobLog, ProcessorInfo, ProcessorLog,
};
use dag_sched_sim::processor::HomogeneousProcessor;

fn sample() -> Dag {
    let mut dag = Dag::new();
    let n0 = dag
        .add_node_with_check(
            NodeData::new(0, ParamKey::ExecutionTime, 4).set_param(ParamKey::Period, 10),
        )
        .unwrap();
    let n1 = dag.add_node_with_check(NodeData::new(1, ParamKey::ExecutionTime, 4)).unwrap();
    let n2 = dag.add_node_with_check(NodeData::new(2, ParamKey::ExecutionTime, 3)).unwrap();
    let n3 = dag.add_node_with_check(NodeData::new(3, ParamKey::ExecutionTime, 3)).unwrap();
    dag.add_edge(n0, n1, 0).unwrap();
    dag.add_edge(n0, n2, 0).unwrap();
    dag.add_edge(n0, n3, 0).unwrap();
    dag
}

#[test]
fn a_task_is_described() {
    let info = DAGInfo::new(&sample()).unwrap();
    assert_eq!(
        info,
        DAGInfo { critical_path_length: 8, period: 10, end_to_end_deadline: 0, volume: 14 }
    );
    let set_info = DAGSetInfo::new(&vec![sample(), sample()]).unwrap();
    assert_eq!(set_info.each_dag_info, vec![info, info]);
    assert_eq!(ProcessorInfo::new(3).number_of_cores, 3);
}

#[test]
fn a_cyclic_task_is_not_described() {
    let mut dag = sample();
    dag.add_edge(1, 0, 0).unwrap();
    assert_eq!(DAGInfo::new(&dag).err(), Some(CustomError::Cyclic));
    assert_eq!(DAGSetInfo::new(&vec![sample(), dag]).err(), Some(CustomError::Cyclic));
}

#[test]
fn response_times_follow_from_releases_and_finishes() {
    let mut log = DAGLog::new(2);
    log.release_time = vec![0, 10, 20];
    log.finish_time = vec![4, 17];
    log.calculate_response_time();
    assert_eq!(log.finish_time, vec![4, 17, i32::MAX]);
    assert_eq!(log.response_time, vec![4, 7, i32::MAX - 20]);
    log.calculate_worst_response_time();
    assert_eq!(log.worst_response_time, i32::MAX - 20);

    let mut log = DAGLog::new(0);
    log.release_time = vec![0, 10];
    log.finish_time = vec![9, 12];
    log.calculate_response_time();
    log.calculate_worst_response_time();
    assert_eq!(log.response_time, vec![9, 2]);
    assert_eq!(log.worst_response_time, 9);

    let mut log = DAGLog::new(0);
    log.calculate_response_time();
    log.calculate_worst_response_time();
    assert!(log.response_time.is_empty());
    assert_eq!(log.worst_response_time, 0);
}

#[test]
fn busy_ticks_are_counted_per_core() {
    let mut log = ProcessorLog::new(3);
    log.write_processing_time(&vec![0, 2, 2]);
    log.write_processing_time(&vec![2]);
    assert_eq!(
        log.core_logs,
        vec![
            CoreLog { core_id: 0, total_proc_time: 1 },
            CoreLog { core_id: 1, total_proc_time: 0 },
            CoreLog { core_id: 2, total_proc_time: 3 },
        ]
    );
}

#[test]
fn the_events_of_a_task_are_recorded_in_order() {
    let dag = sample();
    let mut log = DAGSchedulerLog::new(&dag, 2).unwrap();
    log.write_allocating_job(&dag.nodes[0], 1, 0);
    log.write_processing_time(&vec![1]);
    log.write_finishing_job(&dag.nodes[0], 1, 4);
    log.write_job_event(&dag.nodes[2], 0, JobEventTimes::PreemptedTime(5));
    assert_eq!(
        log.node_logs,
        vec![
            JobLog::new(1, 0, 0, 0, JobEventTimes::StartTime(0)),
            JobLog::new(1, 0, 0, 0, JobEventTimes::FinishTime(4)),
            JobLog::new(0, 0, 2, 0, JobEventTimes::PreemptedTime(5)),
        ]
    );
    assert_eq!(log.processor_log.core_logs[1].total_proc_time, 1);
    assert_eq!(log.dag_info.volume, 14);
}

#[test]
fn the_events_of_a_set_go_to_their_task() {
    let dag_set = vec![sample(), sample()];
    let mut log = DAGSetSchedulerLog::new(&dag_set, 2).unwrap();
    let fresh = dag_set[1].nodes[2].set_param(ParamKey::DagId, 1);
    let resumed = fresh.set_param(ParamKey::IsPreempted, 1);
    log.write_dag_release_time(1, 0);
    log.write_allocating_job(&fresh, 0, 1, 3);
    log.write_job_event(&fresh, 0, 0, JobEventTimes::PreemptedTime(4));
    log.write_allocating_job(&resumed, 1, 1, 6);
    log.write_job_log(JobLog::new(1, 1, 2, 0, JobEventTimes::FinishTime(8)));
    log.write_dag_finish_time(1, 8);
    log.write_processing_time(&vec![0, 1, 1]);
    log.calculate_response_time();
    assert!(log.node_set_logs[0].is_empty());
    assert_eq!(
        log.node_set_logs[1],
        vec![
            JobLog::new(0, 1, 2, 0, JobEventTimes::StartTime(3)),
            JobLog::new(0, 1, 2, 0, JobEventTimes::PreemptedTime(4)),
            JobLog::new(1, 1, 2, 0, JobEventTimes::ResumeTime(6)),
            JobLog::new(1, 1, 2, 0, JobEventTimes::FinishTime(8)),
        ]
    );
    assert_eq!(log.dag_set_log[1].response_time, vec![8]);
    assert_eq!(log.dag_set_log[1].worst_response_time, 8);
    assert_eq!(log.dag_set_log[0].worst_response_time, 0);
    assert_eq!(log.processor_log.core_logs[1].total_proc_time, 2);
}

#[test]
fn the_ready_queue_is_ordered_stably() {
    let with = |id: i32, priority: i32| {
        NodeData::new(id, ParamKey::ExecutionTime, 1).set_param(ParamKey::Priority, priority)
    };
    let mut queue = std::collections::VecDeque::from(vec![
        with(0, 3),
        NodeData::new(1, ParamKey::ExecutionTime, 1),
        with(2, 1),
        with(3, 3),
        with(4, 0),
        with(5, 1),
    ]);
    sort_ready_queue(&mut queue);
    assert_eq!(queue.iter().map(|n| n.id).collect::<Vec<i32>>(), vec![4, 2, 5, 0, 3, 1]);
    let mut same = queue.clone();
    FixedPriorityScheduler::sort_ready_queue(&mut same);
    assert_eq!(same, queue);
}

#[test]
fn a_scheduler_reports_what_it_holds() {
    let dag = sample();
    let mut scheduler = FixedPriorityScheduler::new(&dag, &HomogeneousProcessor::new(2)).unwrap();
    assert_eq!(scheduler.get_name(), "FixedPriorityScheduler");
    assert_eq!(scheduler.get_dag().edges, dag.edges);
    assert_eq!(scheduler.get_dag().nodes, dag.nodes);
    assert_eq!(scheduler.get_processor().get_number_of_cores(), 2);
    assert!(scheduler.is_complete());
    scheduler.step();
    assert!(!scheduler.is_complete());
    assert_eq!(scheduler.engine.current_time, 1);
    assert_eq!(scheduler.engine.degraded, vec![(0, 0)]);
    let (length, order) = scheduler.schedule().unwrap();
    assert_eq!(length, 9);
    assert_eq!(order, vec![0, 1, 2, 3]);
    assert_eq!(scheduler.engine.current_time, 10);
}

#[test]
fn a_run_that_cannot_be_set_up_is_refused() {
    let dag = sample();
    assert_eq!(
        FixedPriorityScheduler::new(&dag, &HomogeneousProcessor::new(0)).err(),
        Some(CustomError::InsufficientCores(0))
    );
    let mut short = Dag::new();
    short.add_node_with_check(NodeData::new(0, ParamKey::ExecutionTime, 0)).unwrap();
    short.add_node_with_check(NodeData::new(1, ParamKey::ExecutionTime, 2)).unwrap();
    short.add_edge(0, 1, 0).unwrap();
    let mut scheduler =
        FixedPriorityScheduler::new(&short, &HomogeneousProcessor::new(1)).unwrap();
    assert_eq!(scheduler.schedule(), Ok((3, vec![0, 1])));
    let mut long = Dag::new();
    long.add_node_with_check(NodeData::new(0, ParamKey::ExecutionTime, 2147483647)).unwrap();
    assert_eq!(
        FixedPriorityScheduler::new(&long, &HomogeneousProcessor::new(1)).err(),
        Some(CustomError::Overflow)
    );
}

#[test]
fn a_run_cut_short_is_reported() {
    let dag = sample();
    let mut scheduler = FixedPriorityScheduler::new(&dag, &HomogeneousProcessor::new(1)).unwrap();
    scheduler.engine.horizon = 5;
    assert_eq!(scheduler.schedule(), Err(CustomError::HorizonExceeded));
    assert_eq!(scheduler.engine.current_time, 5);
}

#[test]
fn fixed_priorities_with_displacement() {
    let mut dag = Dag::new();
    let with = |id: i32, time: i32, priority: i32| {
        NodeData::new(id, ParamKey::ExecutionTime, time).set_param(ParamKey::Priority, priority)
    };
    dag.add_node_with_check(with(0, 2, 5)).unwrap();
    dag.add_node_with_check(with(1, 6, 7)).unwrap();
    dag.add_node_with_check(with(2, 3, 1)).unwrap();
    dag.add_edge(0, 2, 0).unwrap();
    let mut scheduler = FixedPriorityScheduler::new(&dag, &HomogeneousProcessor::new(1)).unwrap();
    scheduler.set_policy(PreemptiveType::Preemptive);
    let (length, order) = scheduler.schedule().unwrap();
    assert_eq!(length, 11);
    assert_eq!(order, vec![0, 2, 1]);

    let mut dag = Dag::new();
    dag.add_node_with_check(with(0, 2, 5)).unwrap();
    dag.add_node_with_check(with(1, 6, 7)).unwrap();
    dag.add_node_with_check(with(2, 3, 1)).unwrap();
    dag.add_edge(0, 2, 0).unwrap();
    let mut scheduler = FixedPriorityScheduler::new(&dag, &HomogeneousProcessor::new(2)).unwrap();
    scheduler.set_policy(PreemptiveType::Preemptive);
    let (length, order) = scheduler.schedule().unwrap();
    assert_eq!(length, 6);
    assert_eq!(order, vec![0, 1, 2]);
    let events: Vec<(usize, JobEventTimes)> =
        scheduler.get_log().node_logs.iter().map(|log| (log.node_id, log.event_time)).collect();
    assert_eq!(
        events,
        vec![
            (0, JobEventTimes::StartTime(0)),
            (1, JobEventTimes::StartTime(0)),
            (0, JobEventTimes::FinishTime(2)),
            (2, JobEventTimes::StartTime(2)),
            (2, JobEventTimes::FinishTime(5)),
            (1, JobEventTimes::FinishTime(6)),
        ]
    );
}
