use dag_sched_sim::graph_extension::{Dag, NodeData, ParamKey};
use dag_sched_sim::handle_segment::create_segments;

fn create_node(id: i32, key: ParamKey, value: i32) -> NodeData {
    NodeData::new(id, key, value)
}

fn create_sample_dag(period: i32, communication_time: i32) -> Dag {
    let mut dag = Dag::new();
    let n0 = dag.add_node_with_check(create_node(0, ParamKey::ExecutionTime, 4)).unwrap();
    let n1 = dag.add_node_with_check(create_node(1, ParamKey::ExecutionTime, 7)).unwrap();
    let n2 = dag.add_node_with_check(create_node(2, ParamKey::ExecutionTime, 55)).unwrap();
    let n3 = dag.add_node_with_check(create_node(3, ParamKey::ExecutionTime, 36)).unwrap();
    let n4 = dag.add_node_with_check(create_node(4, ParamKey::ExecutionTime, 54)).unwrap();
    assert!(dag.add_param(n0, ParamKey::Period, period));
    dag.add_edge(n0, n1, communication_time).unwrap();
    dag.add_edge(n0, n2, communication_time).unwrap();
    dag.add_edge(n1, n3, communication_time).unwrap();
    dag.add_edge(n2, n4, communication_time).unwrap();

    dag
}

fn create_duplicates_dag(period: i32, communication_time: i32) -> Dag {
    let mut dag = Dag::new();
    let n0 = dag.add_node_with_check(create_node(0, ParamKey::ExecutionTime, 4)).unwrap();
    let n1 = dag.add_node_with_check(create_node(1, ParamKey::ExecutionTime, 7)).unwrap();
    let n2 = dag.add_node_with_check(create_node(2, ParamKey::ExecutionTime, 7)).unwrap();
    let n3 = dag.add_node_with_check(create_node(3, ParamKey::ExecutionTime, 36)).unwrap();
    let n4 = dag.add_node_with_check(create_node(4, ParamKey::ExecutionTime, 54)).unwrap();
    assert!(dag.add_param(n0, ParamKey::Period, period));
    dag.add_edge(n0, n1, communication_time).unwrap();
    dag.add_edge(n0, n2, communication_time).unwrap();
    dag.add_edge(n1, n3, communication_time).unwrap();
    dag.add_edge(n2, n4, communication_time).unwrap();

    dag
}

fn ranges_and_counts(dag: &Dag) -> Vec<(i32, i32, usize)> {
    create_segments(dag)
        .unwrap()
        .iter()
        .map(|segment| (segment.begin_range, segment.end_range, segment.nodes.len()))
        .collect()
}

#[test]
fn test_create_segment_normal() {
    // With the communication time 1 on every edge, each node waits one tick
    // for its data.
    let dag = create_sample_dag(120, 1);
    assert_eq!(
        ranges_and_counts(&dag),
        vec![(0, 4, 1), (4, 12, 0), (12, 49, 1), (49, 60, 1), (60, 115, 0)]
    );

    // Without communication time.
    let dag = create_sample_dag(120, 0);
    let segments = create_segments(&dag).unwrap();

    assert_eq!(segments.len(), 5);

    assert_eq!(segments[0].nodes.len(), 1);
    assert_eq!(segments[1].nodes.len(), 2);
    assert_eq!(segments[2].nodes.len(), 2);
    assert_eq!(segments[3].nodes.len(), 1);
    assert_eq!(segments[4].nodes.len(), 1);

    assert_eq!(segments[0].begin_range, 0);
    assert_eq!(segments[0].end_range, 4);
    assert_eq!(segments[1].begin_range, 4);
    assert_eq!(segments[1].end_range, 11);
    assert_eq!(segments[2].begin_range, 11);
    assert_eq!(segments[2].end_range, 47);
    assert_eq!(segments[3].begin_range, 47);
    assert_eq!(segments[3].end_range, 59);
    assert_eq!(segments[4].begin_range, 59);
    assert_eq!(segments[4].end_range, 113);
}

#[test]
fn test_create_segment_duplicates() {
    // With the communication time 1 on every edge.
    let dag = create_duplicates_dag(120, 1);
    assert_eq!(ranges_and_counts(&dag), vec![(0, 4, 1), (4, 12, 0), (12, 49, 0), (49, 67, 1)]);

    // Without communication time.
    let dag = create_duplicates_dag(120, 0);
    let segments = create_segments(&dag).unwrap();

    assert_eq!(segments.len(), 4);

    assert_eq!(segments[0].nodes.len(), 1);
    assert_eq!(segments[1].nodes.len(), 2);
    assert_eq!(segments[2].nodes.len(), 2);
    assert_eq!(segments[3].nodes.len(), 1);

    assert_eq!(segments[0].begin_range, 0);
    assert_eq!(segments[0].end_range, 4);
    assert_eq!(segments[1].begin_range, 4);
    assert_eq!(segments[1].end_range, 11);
    assert_eq!(segments[2].begin_range, 11);
    assert_eq!(segments[2].end_range, 47);
    assert_eq!(segments[3].begin_range, 47);
    assert_eq!(segments[3].end_range, 65);
}

#[test]
fn segments_hold_the_nodes_that_span_them() {
    let dag = create_sample_dag(120, 0);
    let segments = create_segments(&dag).unwrap();
    let ids: Vec<Vec<i32>> =
        segments.iter().map(|s| s.nodes.iter().map(|n| n.id).collect()).collect();
    assert_eq!(ids, vec![vec![0], vec![1, 2], vec![2, 3], vec![2], vec![4]]);
    assert!(segments.iter().all(|s| s.deadline == 0 && s.classification.is_none()));
}

#[test]
fn communication_time_moves_the_segment_ends() {
    let mut dag = Dag::new();
    let a = dag.add_node_with_check(create_node(0, ParamKey::ExecutionTime, 4)).unwrap();
    let b = dag.add_node_with_check(create_node(1, ParamKey::ExecutionTime, 7)).unwrap();
    dag.add_edge(a, b, 3).unwrap();
    let segments = create_segments(&dag).unwrap();
    assert_eq!(segments.len(), 2);
    assert_eq!((segments[0].begin_range, segments[0].end_range), (0, 4));
    assert_eq!((segments[1].begin_range, segments[1].end_range), (4, 14));
    assert!(segments[1].nodes.is_empty());
}
