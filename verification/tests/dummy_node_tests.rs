use dag_sched_sim::graph_extension::{
    CustomError, Dag, Edge, NodeData, ParamKey, SINK_NODE_ID, SOURCE_NODE_ID,
};
use dag_sched_sim::graph_extension_trait::GraphExtension;

fn sample() -> Dag {
    let mut dag = Dag::new();
    for (i, t) in [4, 7, 55, 36].iter().enumerate() {
        dag.add_node_with_check(NodeData::new(i as i32, ParamKey::ExecutionTime, *t)).unwrap();
    }
    dag.add_edge(0, 2, 3).unwrap();
    dag.add_edge(1, 2, 0).unwrap();
    dag.add_edge(1, 3, 5).unwrap();
    dag
}

fn edge(source: usize, target: usize, communication_time: i32) -> Edge {
    Edge { source, target, communication_time }
}

#[test]
fn the_dummy_source_is_joined_to_every_node_without_predecessor() {
    let mut dag = sample();
    assert_eq!(dag.add_dummy_source_node(), Ok(4));
    assert_eq!(dag.nodes[4].id, SOURCE_NODE_ID);
    assert_eq!(dag.nodes[4].execution_time, Some(0));
    assert_eq!(dag.edges[3..].to_vec(), vec![edge(4, 0, 0), edge(4, 1, 0)]);
    assert_eq!(dag.add_dummy_source_node(), Err(CustomError::DummySourceExists(4)));
    assert_eq!(dag.node_count(), 5);
    assert_eq!(dag.edge_count(), 5);
}

#[test]
fn the_dummy_sink_is_joined_to_every_node_without_successor() {
    let mut dag = sample();
    assert_eq!(dag.add_dummy_sink_node(), Ok(4));
    assert_eq!(dag.nodes[4].id, SINK_NODE_ID);
    assert_eq!(dag.edges[3..].to_vec(), vec![edge(2, 4, 0), edge(3, 4, 0)]);
    assert_eq!(dag.add_dummy_sink_node(), Err(CustomError::DummySinkExists(4)));
    assert_eq!(dag.node_count(), 5);
}

#[test]
fn removing_the_dummy_nodes_restores_the_graph() {
    let untouched = sample();
    let mut dag = sample();
    dag.add_dummy_source_node().unwrap();
    dag.add_dummy_sink_node().unwrap();
    assert_eq!(dag.node_count(), 6);
    assert_eq!(dag.remove_dummy_source_node(), Ok(4));
    assert_eq!(dag.nodes[4].id, SINK_NODE_ID);
    assert_eq!(dag.edges[3..].to_vec(), vec![edge(2, 4, 0), edge(3, 4, 0)]);
    assert_eq!(dag.remove_dummy_sink_node(), Ok(4));
    assert_eq!(dag.nodes, untouched.nodes);
    assert_eq!(dag.edges, untouched.edges);
    assert_eq!(dag.remove_dummy_source_node(), Err(CustomError::DummySourceMissing));
    assert_eq!(dag.remove_dummy_sink_node(), Err(CustomError::DummySinkMissing));
}

#[test]
fn removing_a_node_shifts_the_nodes_behind_it() {
    let mut dag = sample();
    dag.remove_node(1);
    assert_eq!(dag.nodes.iter().map(|n| n.id).collect::<Vec<i32>>(), vec![0, 2, 3]);
    assert_eq!(dag.edges, vec![edge(0, 1, 3)]);
}

#[test]
fn the_critical_path_leaves_no_dummy_node_behind() {
    let dag = sample();
    let before = (dag.nodes.clone(), dag.edges.clone());
    let paths = dag.get_critical_paths().unwrap();
    assert_eq!(paths, vec![vec![1, 2], vec![0, 2]]);
    assert_eq!((dag.nodes.clone(), dag.edges.clone()), before);
}

#[test]
fn the_graph_operations_are_there_as_a_trait() {
    fn attach<G: GraphExtension>(graph: &mut G) -> Result<usize, CustomError> {
        graph.add_dummy_source_node()
    }
    let mut dag = sample();
    assert_eq!(attach(&mut dag), Ok(4));
    assert_eq!(attach(&mut dag), Err(CustomError::DummySourceExists(4)));
}
