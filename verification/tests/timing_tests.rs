use dag_sched_sim::graph_extension::{CustomError, Dag, Edge, NodeData, ParamKey};

fn node(id: i32, execution_time: i32) -> NodeData {
    NodeData::new(id, ParamKey::ExecutionTime, execution_time)
}

fn build(execution_times: &[i32], edges: &[(usize, usize, i32)]) -> Dag {
    let mut dag = Dag::new();
    for (i, t) in execution_times.iter().enumerate() {
        dag.add_node_with_check(node(i as i32, *t)).unwrap();
    }
    for (source, target, communication_time) in edges {
        dag.add_edge(*source, *target, *communication_time).unwrap();
    }
    dag
}

fn heaviest_walk_from(dag: &Dag, v: usize) -> i32 {
    let own = dag.nodes[v].execution_time.unwrap();
    let mut best = own;
    for Edge { source, target, communication_time } in dag.edges.iter().copied() {
        if source == v {
            let weight = own + communication_time + heaviest_walk_from(dag, target);
            if weight > best {
                best = weight;
            }
        }
    }
    best
}

fn heaviest_walk(dag: &Dag) -> i32 {
    (0..dag.nodes.len()).map(|v| heaviest_walk_from(dag, v)).max().unwrap_or(0)
}

fn samples() -> Vec<Dag> {
    vec![
        build(&[3], &[]),
        build(&[4, 7, 55, 36, 54], &[(0, 1, 0), (0, 2, 0), (1, 3, 0), (2, 4, 0)]),
        build(&[4, 7, 55, 36, 54], &[(0, 1, 1), (0, 2, 1), (1, 3, 1), (2, 4, 1)]),
        build(&[2, 9, 1, 4, 6, 3], &[(0, 1, 5), (0, 2, 0), (1, 3, 2), (2, 3, 30), (3, 4, 1), (2, 5, 7)]),
        build(&[5, 5, 5, 5], &[(3, 2, 2), (2, 1, 2), (1, 0, 2), (3, 0, 40)]),
        build(&[1, 2, 3, 4, 5, 6, 7], &[(0, 3, 1), (1, 3, 2), (2, 3, 3), (3, 4, 4), (3, 5, 5), (3, 6, 6), (0, 6, 50)]),
        build(&[0, 0, 7], &[(0, 1, 0), (1, 2, 0)]),
    ]
}

#[test]
fn critical_path_length_is_the_heaviest_walk() {
    for dag in samples() {
        let timing = dag.calculate_timing().unwrap();
        assert_eq!(timing.critical_path_length, heaviest_walk(&dag));
        let latest_finish = (0..dag.nodes.len())
            .map(|v| timing.earliest_start[v] + dag.nodes[v].execution_time.unwrap())
            .max()
            .unwrap();
        assert_eq!(latest_finish, timing.critical_path_length);
    }
}

#[test]
fn forward_and_backward_pass_on_a_diamond() {
    let dag = build(&[4, 7, 55, 36, 54], &[(0, 1, 1), (0, 2, 1), (1, 3, 1), (2, 4, 1)]);
    let timing = dag.calculate_timing().unwrap();
    assert_eq!(timing.earliest_start, vec![0, 5, 5, 13, 61]);
    assert_eq!(timing.critical_path_length, 115);
    assert_eq!(timing.latest_start, vec![0, 71, 5, 79, 61]);
}

#[test]
fn no_node_on_a_critical_path_has_slack() {
    for dag in samples() {
        let timing = dag.calculate_timing().unwrap();
        let paths = dag.get_critical_paths().unwrap();
        assert!(!paths.is_empty());
        for path in &paths {
            assert!(!path.is_empty());
            for v in path {
                assert!(*v < dag.nodes.len());
                assert!(dag.nodes[*v].id >= 0);
                assert_eq!(timing.earliest_start[*v], timing.latest_start[*v]);
            }
            for pair in path.windows(2) {
                assert!(dag.edges.iter().any(|e| e.source == pair[0] && e.target == pair[1]));
            }
            assert!(dag.edges.iter().all(|e| e.target != path[0]));
            assert!(dag.edges.iter().all(|e| e.source != path[path.len() - 1]));
        }
    }
}

#[test]
fn critical_paths_of_a_graph_with_ties() {
    let dag = build(&[1, 5, 5, 1], &[(0, 1, 0), (0, 2, 0), (1, 3, 0), (2, 3, 0)]);
    assert_eq!(dag.get_critical_paths().unwrap(), vec![vec![0, 2, 3], vec![0, 1, 3]]);
    let empty = Dag::new();
    assert!(empty.get_critical_paths().unwrap().is_empty());
}

#[test]
fn a_cycle_is_reported() {
    let dag = build(&[1, 2, 3], &[(0, 1, 0), (1, 2, 0), (2, 0, 0)]);
    assert_eq!(dag.topological_order(), Err(CustomError::Cyclic));
    assert_eq!(dag.calculate_timing().err(), Some(CustomError::Cyclic));
    assert_eq!(dag.get_critical_paths(), Err(CustomError::Cyclic));
    let own = build(&[1], &[(0, 0, 0)]);
    assert_eq!(own.topological_order(), Err(CustomError::Cyclic));
}

#[test]
fn a_topological_order_puts_sources_before_targets() {
    let dag = build(&[5, 5, 5, 5], &[(3, 2, 2), (2, 1, 2), (1, 0, 2), (3, 0, 40)]);
    let order = dag.topological_order().unwrap();
    assert_eq!(order, vec![3, 2, 1, 0]);
}

#[test]
fn a_walk_too_heavy_for_an_i32_is_reported() {
    let dag = build(&[2147483647, 1], &[(0, 1, 0)]);
    assert_eq!(dag.calculate_timing().err(), Some(CustomError::Overflow));
    let dag = build(&[1, 1], &[(0, 1, 2147483647)]);
    assert_eq!(dag.calculate_timing().err(), Some(CustomError::Overflow));
    let dag = build(&[2147483646, 1], &[(0, 1, 0)]);
    assert_eq!(dag.calculate_timing().unwrap().critical_path_length, 2147483647);
}

#[test]
fn volume_period_and_deadline() {
    let mut dag = build(&[4, 7, 55], &[(0, 1, 0), (0, 2, 0)]);
    assert_eq!(dag.get_volume(), Ok(66));
    assert_eq!(dag.get_head_period(), None);
    assert_eq!(dag.get_end_to_end_deadline(), None);
    assert!(dag.add_param(0, ParamKey::Period, 0));
    assert_eq!(dag.get_head_period(), Some(0));
    assert!(!dag.add_param(0, ParamKey::Period, 9));
    assert!(dag.update_param(0, ParamKey::Period, 9));
    assert_eq!(dag.get_head_period(), Some(9));
    assert!(!dag.update_param(1, ParamKey::EndToEndDeadline, 30));
    assert!(dag.add_param(2, ParamKey::EndToEndDeadline, 30));
    assert!(dag.add_param(1, ParamKey::Period, 5));
    assert_eq!(dag.get_head_period(), Some(9));
    assert_eq!(dag.get_end_to_end_deadline(), Some(30));
    assert_eq!(dag.get_source_nodes(), vec![0]);
    assert_eq!(dag.get_sink_nodes(), vec![1, 2]);
    assert!(!dag.update_param(0, ParamKey::ExecutionTime, -1));
    assert_eq!(build(&[2147483647, 1], &[]).get_volume(), Err(CustomError::Overflow));
}

#[test]
fn edges_and_nodes_are_checked() {
    let mut dag = build(&[1, 2], &[]);
    assert_eq!(dag.add_edge(0, 2, 0), Err(CustomError::NodeOutOfBounds));
    assert_eq!(dag.add_edge(0, 1, -1), Err(CustomError::NegativeCommunicationTime));
    assert_eq!(dag.add_edge(0, 1, 3), Ok(0));
    assert_eq!(dag.edge_count(), 1);
    assert_eq!(
        dag.add_node_with_check(NodeData::new(7, ParamKey::Priority, 1)),
        Err(CustomError::InvalidExecutionTime)
    );
    assert_eq!(dag.add_node_with_check(node(8, -1)), Err(CustomError::InvalidExecutionTime));
    assert_eq!(dag.add_node_with_check(node(1, 1)), Err(CustomError::DuplicateId(1)));
    assert_eq!(dag.find_node_by_id(1), Some(1));
    assert_eq!(dag.find_node_by_id(5), None);
    assert_eq!(NodeData::new(3, ParamKey::Offset, 4).get_param(ParamKey::Offset), Some(4));
    assert_eq!(NodeData::new(3, ParamKey::Offset, 4).get_param(ParamKey::Period), None);
}

#[test]
fn parameter_names() {
    assert_eq!(ParamKey::from_name("execution_time"), Some(ParamKey::ExecutionTime));
    assert_eq!(ParamKey::from_name("end_to_end_deadline"), Some(ParamKey::EndToEndDeadline));
    assert_eq!(ParamKey::from_name("is_preempted"), Some(ParamKey::IsPreempted));
    assert_eq!(ParamKey::from_name("Weight"), None);
    assert_eq!(ParamKey::Priority.get_name(), "priority");
    for key in [
        ParamKey::ExecutionTime,
        ParamKey::Priority,
        ParamKey::Period,
        ParamKey::EndToEndDeadline,
        ParamKey::Offset,
        ParamKey::DagId,
        ParamKey::IsPreempted,
    ] {
        assert_eq!(ParamKey::from_name(key.get_name()), Some(key));
    }
}
