use dag_sched_sim::engine::{DagRun, SchedulerEngine};
use dag_sched_sim::engine_model::{NodeState, PreemptiveType};
use dag_sched_sim::graph_extension::{Dag, NodeData, ParamKey};
use dag_sched_sim::log::{JobEventTimes, JobLog};

fn task(execution_times: &[i32], edges: &[(usize, usize, i32)], priority: i32) -> Dag {
    let mut dag = Dag::new();
    for (i, t) in execution_times.iter().enumerate() {
        dag.add_node_with_check(
            NodeData::new(i as i32, ParamKey::ExecutionTime, *t)
                .set_param(ParamKey::Priority, priority),
        )
        .unwrap();
    }
    for (source, target, communication_time) in edges {
        dag.add_edge(*source, *target, *communication_time).unwrap();
    }
    dag
}

fn lending_engine(policy: PreemptiveType) -> SchedulerEngine {
    let owner = DagRun::new(&task(&[3], &[], 0), 0, true, Some(10), Some(0)).unwrap();
    let guest = DagRun::new(&task(&[4, 4, 2], &[], 1), 1, false, Some(20), Some(0)).unwrap();
    SchedulerEngine::new(vec![owner, guest], vec![Some(0), None], policy, 20)
}

fn takes(events: &[JobLog]) -> Vec<(usize, usize, usize, i32)> {
    events
        .iter()
        .filter_map(|e| match e.event_time {
            JobEventTimes::StartTime(t) | JobEventTimes::ResumeTime(t) => {
                Some((e.core_id, e.dag_id, e.node_id, t))
            }
            _ => None,
        })
        .collect()
}

#[test]
fn an_idle_dedicated_core_is_lent_until_its_owner_returns() {
    let mut engine = lending_engine(PreemptiveType::NonPreemptive);
    engine.run_to_horizon();
    assert_eq!(engine.current_time, 20);
    assert_eq!(
        takes(&engine.events),
        vec![
            (0, 0, 0, 0),
            (1, 1, 0, 0),
            (0, 1, 1, 3),
            (1, 1, 2, 4),
            (0, 0, 0, 10),
        ]
    );
    assert_eq!(engine.runs[0].release_times, vec![0, 10]);
    assert_eq!(engine.runs[0].finish_log, vec![3, 13]);
    assert_eq!(engine.runs[1].release_times, vec![0]);
    assert_eq!(engine.runs[1].finish_log, vec![7]);
    assert_eq!(engine.busy[0].total_proc_time, 10);
    assert_eq!(engine.busy[1].total_proc_time, 6);
}

#[test]
fn no_core_is_bound_twice_in_a_tick() {
    for policy in [PreemptiveType::NonPreemptive, PreemptiveType::Preemptive] {
        let mut engine = lending_engine(policy);
        while engine.current_time < engine.horizon {
            let before = engine.events.len();
            engine.tick();
            let bound = takes(&engine.events[before..]);
            for (i, a) in bound.iter().enumerate() {
                for b in &bound[i + 1..] {
                    assert!(a.0 != b.0);
                }
            }
        }
    }
}

#[test]
fn a_heavy_task_keeps_to_its_own_cores() {
    let owner = DagRun::new(&task(&[2, 2], &[], 0), 0, true, None, Some(0)).unwrap();
    let mut engine =
        SchedulerEngine::new(vec![owner], vec![None, Some(0)], PreemptiveType::NonPreemptive, 6);
    engine.run_to_horizon();
    assert_eq!(takes(&engine.events), vec![(1, 0, 0, 0), (1, 0, 1, 2)]);
    assert_eq!(engine.runs[0].finish_log, vec![4]);
    assert!(engine.runs[0].states.iter().all(|s| *s == NodeState::Finished));
}

#[test]
fn a_release_waits_while_the_instance_before_it_runs() {
    let slow = DagRun::new(&task(&[7], &[], 0), 0, false, Some(5), Some(0)).unwrap();
    let mut engine = SchedulerEngine::new(vec![slow], vec![None], PreemptiveType::NonPreemptive, 15);
    engine.run_to_horizon();
    assert_eq!(engine.runs[0].release_times, vec![0, 5, 10]);
    assert_eq!(engine.runs[0].finish_log, vec![7, 14]);
    assert!(engine.runs[0].active);
    assert_eq!(engine.runs[0].job_id, 3);
    assert_eq!(engine.runs[0].backlog, 0);
    assert_eq!(
        takes(&engine.events),
        vec![(0, 0, 0, 0), (0, 0, 0, 7), (0, 0, 0, 14)]
    );
    let jobs: Vec<usize> = engine.events.iter().map(|e| e.job_id).collect();
    assert_eq!(jobs, vec![0, 0, 1, 1, 2]);
}

#[test]
fn the_phases_of_a_tick_follow_each_other() {
    let mut engine = lending_engine(PreemptiveType::NonPreemptive);
    engine.release();
    assert!(engine.runs[0].active && engine.runs[1].active);
    assert!(engine.ready_queue.is_empty());
    engine.enqueue_ready();
    assert_eq!(engine.ready_queue.len(), 4);
    assert_eq!(engine.ready_queue[3].dag_id, Some(1));
    engine.sort();
    assert_eq!(engine.ready_queue[0].dag_id, Some(0));
    engine.allocate();
    assert_eq!(engine.ready_queue.len(), 2);
    assert_eq!(engine.execution_order, vec![(0, 0), (1, 0)]);
    engine.process();
    assert_eq!(engine.current_time, 1);
    assert_eq!(engine.processor.cores[0].remain_proc_time, 2);
    assert_eq!(engine.processor.cores[1].remain_proc_time, 3);
}
