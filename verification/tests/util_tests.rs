use dag_sched_sim::graph_extension::{CustomError, Dag, NodeData, ParamKey};
use dag_sched_sim::implicit_deadline::adjust_to_implicit_deadline;
use dag_sched_sim::util::get_hyper_period;

fn create_dag() -> Dag {
    let mut dag = Dag::new();
    dag.add_node_with_check(NodeData::new(0, ParamKey::ExecutionTime, 4)).unwrap();
    dag
}

fn create_dag_with_period(period: i32) -> Dag {
    let mut dag = Dag::new();
    let n0 = dag
        .add_node_with_check(
            NodeData::new(0, ParamKey::ExecutionTime, 4).set_param(ParamKey::Period, period),
        )
        .unwrap();
    let n1 = dag.add_node_with_check(NodeData::new(1, ParamKey::ExecutionTime, 4)).unwrap();
    dag.add_edge(n0, n1, 0).unwrap();
    dag
}

fn create_dag_with_deadline(deadline: i32) -> Dag {
    let mut dag = Dag::new();
    let n0 = dag.add_node_with_check(NodeData::new(0, ParamKey::ExecutionTime, 4)).unwrap();
    let n1 = dag
        .add_node_with_check(
            NodeData::new(1, ParamKey::ExecutionTime, 4)
                .set_param(ParamKey::EndToEndDeadline, deadline),
        )
        .unwrap();
    dag.add_edge(n0, n1, 0).unwrap();
    dag
}

fn create_dag_with_period_and_deadline(period: i32, deadline: i32) -> Dag {
    let mut dag = Dag::new();
    let n0 = dag
        .add_node_with_check(
            NodeData::new(0, ParamKey::ExecutionTime, 4).set_param(ParamKey::Period, period),
        )
        .unwrap();
    let n1 = dag
        .add_node_with_check(
            NodeData::new(1, ParamKey::ExecutionTime, 4)
                .set_param(ParamKey::EndToEndDeadline, deadline),
        )
        .unwrap();
    dag.add_edge(n0, n1, 0).unwrap();
    dag
}

fn create_single_node_dag(period: i32) -> Dag {
    let mut dag = Dag::new();
    dag.add_node_with_check(
        NodeData::new(0, ParamKey::ExecutionTime, 4).set_param(ParamKey::Period, period),
    )
    .unwrap();
    dag
}

#[test]
fn util_test_get_hyper_period_normal() {
    let dag_set = vec![
        create_dag_with_period(10),
        create_dag_with_period(20),
        create_dag_with_period(30),
        create_dag_with_period(40),
    ];
    assert_eq!(get_hyper_period(&dag_set), Ok(120));
}

#[test]
fn dynfed_test_get_hyper_period_normal() {
    let dag_set = vec![
        create_single_node_dag(10),
        create_single_node_dag(20),
        create_single_node_dag(30),
        create_single_node_dag(40),
    ];
    assert_eq!(get_hyper_period(&dag_set), Ok(120));
}

#[test]
fn hyper_period_of_coprime_periods_is_their_product() {
    let dag_set = vec![create_single_node_dag(7), create_single_node_dag(3)];
    assert_eq!(get_hyper_period(&dag_set), Ok(21));
}

#[test]
fn hyper_period_of_no_task_is_one() {
    let dag_set: Vec<Dag> = Vec::new();
    assert_eq!(get_hyper_period(&dag_set), Ok(1));
}

#[test]
fn hyper_period_faults() {
    assert_eq!(get_hyper_period(&vec![create_dag()]), Err(CustomError::MissingDeadline));
    assert_eq!(
        get_hyper_period(&vec![create_single_node_dag(10), create_single_node_dag(0)]),
        Err(CustomError::NonPositivePeriod)
    );
    assert_eq!(
        get_hyper_period(&vec![
            create_single_node_dag(2147483647),
            create_single_node_dag(2147483646)
        ]),
        Err(CustomError::Overflow)
    );
}

#[test]
fn test_adjust_to_implicit_deadline_with_same_period_and_deadline() {
    let mut dag_set = vec![create_dag_with_period_and_deadline(10, 10)];
    adjust_to_implicit_deadline(&mut dag_set).unwrap();
    assert_eq!(dag_set[0].get_head_period().unwrap(), 10);
    assert_eq!(dag_set[0].get_end_to_end_deadline().unwrap(), 10);
}

#[test]
fn test_adjust_to_implicit_deadline_with_diff_period_and_deadline() {
    let mut dag_set = vec![create_dag_with_period_and_deadline(20, 10)];
    adjust_to_implicit_deadline(&mut dag_set).unwrap();
    assert_eq!(dag_set[0].get_head_period().unwrap(), 20);
    assert_eq!(dag_set[0].get_end_to_end_deadline().unwrap(), 20);
}

#[test]
fn test_adjust_to_implicit_deadline_with_period() {
    let mut dag_set = vec![create_dag_with_period(20)];
    adjust_to_implicit_deadline(&mut dag_set).unwrap();
    assert_eq!(dag_set[0].get_head_period().unwrap(), 20);
    assert_eq!(dag_set[0].get_end_to_end_deadline().unwrap(), 20);
}

#[test]
fn test_adjust_to_implicit_deadline_with_deadline() {
    let mut dag_set = vec![create_dag_with_deadline(20)];
    adjust_to_implicit_deadline(&mut dag_set).unwrap();
    assert_eq!(dag_set[0].get_head_period().unwrap(), 20);
    assert_eq!(dag_set[0].get_end_to_end_deadline().unwrap(), 20);
}

#[test]
fn adjust_to_implicit_deadline_without_period_and_deadline_changes_nothing() {
    let mut dag_set = vec![create_dag_with_period(20), create_dag()];
    assert_eq!(adjust_to_implicit_deadline(&mut dag_set), Err(CustomError::MissingDeadline));
    assert_eq!(dag_set[0].get_head_period(), Some(20));
    assert_eq!(dag_set[0].get_end_to_end_deadline(), None);
}

#[test]
#[should_panic]
fn test_adjust_to_implicit_deadline_no_period_and_deadline() {
    let mut dag_set = vec![create_dag()];
    adjust_to_implicit_deadline(&mut dag_set).unwrap();
}
