use dag_sched_sim::graph_extension::{CustomError, Dag, NodeData, ParamKey};

fn create_node(id: i32, key: ParamKey, value: i32) -> NodeData {
    NodeData::new(id, key, value)
}

#[test]
fn test_get_critical_paths_multiple() {
    let mut dag = Dag::new();
    let n0 = dag.add_node_with_check(create_node(0, ParamKey::ExecutionTime, 3)).unwrap();
    let n1 = dag.add_node_with_check(create_node(1, ParamKey::ExecutionTime, 6)).unwrap();
    let n2 = dag.add_node_with_check(create_node(2, ParamKey::ExecutionTime, 45)).unwrap();
    let n3 = dag.add_node_with_check(create_node(3, ParamKey::ExecutionTime, 26)).unwrap();
    let n4 = dag.add_node_with_check(create_node(4, ParamKey::ExecutionTime, 44)).unwrap();
    let n5 = dag.add_node_with_check(create_node(5, ParamKey::ExecutionTime, 26)).unwrap();
    let n6 = dag.add_node_with_check(create_node(6, ParamKey::ExecutionTime, 26)).unwrap();
    let n7 = dag.add_node_with_check(create_node(7, ParamKey::ExecutionTime, 27)).unwrap();
    let n8 = dag.add_node_with_check(create_node(8, ParamKey::ExecutionTime, 43)).unwrap();
    dag.add_edge(n0, n1, 1).unwrap();
    dag.add_edge(n1, n2, 1).unwrap();
    dag.add_edge(n1, n3, 1).unwrap();
    dag.add_edge(n1, n4, 1).unwrap();
    dag.add_edge(n2, n5, 1).unwrap();
    dag.add_edge(n3, n6, 1).unwrap();
    dag.add_edge(n4, n7, 1).unwrap();
    dag.add_edge(n5, n8, 1).unwrap();
    dag.add_edge(n6, n8, 1).unwrap();
    dag.add_edge(n7, n8, 1).unwrap();

    let critical_path = dag.get_critical_paths().unwrap();
    assert_eq!(critical_path.len(), 2);

    assert_eq!(critical_path[0], vec![0_usize, 1_usize, 4_usize, 7_usize, 8_usize]);
    assert_eq!(critical_path[1], vec![0_usize, 1_usize, 2_usize, 5_usize, 8_usize]);
}

#[test]
fn duplicate_id_is_rejected() {
    let mut dag = Dag::new();
    dag.add_node_with_check(create_node(0, ParamKey::ExecutionTime, 3)).unwrap();
    assert_eq!(
        dag.add_node_with_check(create_node(0, ParamKey::ExecutionTime, 4)),
        Err(CustomError::DuplicateId(0))
    );
    assert_eq!(dag.node_count(), 1);
}

#[test]
fn validity_is_tested() {
    let mut dag = Dag::new();
    dag.add_node_with_check(create_node(0, ParamKey::ExecutionTime, 3)).unwrap();
    dag.add_node_with_check(create_node(1, ParamKey::ExecutionTime, 3)).unwrap();
    dag.add_edge(0, 1, 2).unwrap();
    assert!(dag.is_wf());
    let mut twice = Dag { nodes: dag.nodes.clone(), edges: dag.edges.clone() };
    twice.nodes[1].id = 0;
    assert!(!twice.is_wf());
    let mut untimed = Dag { nodes: dag.nodes.clone(), edges: dag.edges.clone() };
    untimed.nodes[0].execution_time = None;
    assert!(!untimed.is_wf());
    let mut loose = Dag { nodes: dag.nodes.clone(), edges: dag.edges.clone() };
    loose.edges[0].target = 2;
    assert!(!loose.is_wf());
    let mut early = Dag { nodes: dag.nodes.clone(), edges: dag.edges.clone() };
    early.edges[0].communication_time = -1;
    assert!(!early.is_wf());
}
