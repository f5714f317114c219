use raro_kernel::dag::{DAGError, DAG};

#[test]
fn test_topological_sort() {
    let mut dag = DAG::new();
    dag.add_node("a".to_string()).unwrap();
    dag.add_node("b".to_string()).unwrap();
    dag.add_node("c".to_string()).unwrap();

    dag.add_edge("a".to_string(), "b".to_string()).unwrap();
    dag.add_edge("b".to_string(), "c".to_string()).unwrap();

    let order = dag.topological_sort().unwrap();
    assert_eq!(order, vec!["a", "b", "c"]);
}

#[test]
fn test_cycle_detection() {
    let mut dag = DAG::new();
    dag.add_node("a".to_string()).unwrap();
    dag.add_node("b".to_string()).unwrap();

    dag.add_edge("a".to_string(), "b".to_string()).unwrap();
    let result = dag.add_edge("b".to_string(), "a".to_string());

    assert!(result.is_err());
}

fn graph(nodes: &[&str], edges: &[(&str, &str)]) -> DAG {
    let mut dag = DAG::new();
    for n in nodes {
        dag.add_node(n.to_string()).unwrap();
    }
    for (a, b) in edges {
        dag.add_edge(a.to_string(), b.to_string()).unwrap();
    }
    dag
}

fn sorted(mut v: Vec<String>) -> Vec<String> {
    v.sort();
    v
}

#[test]
fn topological_sort_returns_every_node_once_in_edge_order() {
    let dag = graph(&["d", "c", "b", "a"], &[("a", "b"), ("a", "c"), ("b", "d"), ("c", "d")]);
    let order = dag.topological_sort().unwrap();
    assert_eq!(order.len(), 4);
    let pos = |x: &str| order.iter().position(|n| n == x).unwrap();
    assert!(pos("a") < pos("b"));
    assert!(pos("a") < pos("c"));
    assert!(pos("b") < pos("d"));
    assert!(pos("c") < pos("d"));
}

#[test]
fn topological_sort_of_empty_graph_is_empty() {
    let dag = DAG::new();
    assert_eq!(dag.topological_sort().unwrap(), Vec::<String>::new());
}

#[test]
fn add_edge_twice_keeps_one_edge() {
    let mut dag = graph(&["u", "v"], &[("u", "v")]);
    assert!(dag.add_edge("u".to_string(), "v".to_string()).is_ok());
    assert_eq!(dag.get_dependents("u").unwrap(), vec!["v"]);
    assert_eq!(dag.get_dependencies("v"), vec!["u"]);
    assert_eq!(dag.export_nodes().len(), 2);
}

#[test]
fn add_edge_closing_a_path_is_rejected_without_change() {
    let mut dag = graph(&["a", "b", "c"], &[("a", "b"), ("b", "c")]);
    let r = dag.add_edge("c".to_string(), "a".to_string());
    assert!(matches!(r, Err(DAGError::CycleDetected)));
    assert_eq!(dag.get_dependencies("a"), Vec::<String>::new());
    assert!(dag.get_dependents("c").is_none());
    assert_eq!(dag.topological_sort().unwrap(), vec!["a", "b", "c"]);
}

#[test]
fn self_edge_is_a_cycle() {
    let mut dag = graph(&["a"], &[]);
    assert!(matches!(dag.add_edge("a".to_string(), "a".to_string()), Err(DAGError::CycleDetected)));
}

#[test]
fn add_edge_to_unknown_node_names_it() {
    let mut dag = graph(&["a"], &[]);
    match dag.add_edge("x".to_string(), "a".to_string()) {
        Err(DAGError::InvalidNode(n)) => assert_eq!(n, "x"),
        other => panic!("unexpected {:?}", other),
    }
    match dag.add_edge("a".to_string(), "y".to_string()) {
        Err(DAGError::InvalidNode(n)) => assert_eq!(n, "y"),
        other => panic!("unexpected {:?}", other),
    }
}

#[test]
fn add_node_twice_is_one_node() {
    let mut dag = graph(&["a", "a"], &[]);
    dag.add_node("a".to_string()).unwrap();
    assert_eq!(dag.export_nodes(), vec!["a"]);
}

#[test]
fn remove_edge_missing_is_edge_not_found() {
    let mut dag = graph(&["a", "b"], &[("a", "b")]);
    match dag.remove_edge("b", "a") {
        Err(DAGError::EdgeNotFound(f, t)) => {
            assert_eq!(f, "b");
            assert_eq!(t, "a");
        }
        other => panic!("unexpected {:?}", other),
    }
    assert!(dag.remove_edge("a", "b").is_ok());
    assert_eq!(dag.get_dependencies("b"), Vec::<String>::new());
    assert!(matches!(dag.remove_edge("a", "b"), Err(DAGError::EdgeNotFound(_, _))));
}

#[test]
fn clear_incoming_edges_removes_only_edges_into_the_node() {
    let mut dag = graph(
        &["a", "b", "c", "d"],
        &[("a", "c"), ("b", "c"), ("c", "d"), ("a", "b")],
    );
    dag.clear_incoming_edges("c");
    assert_eq!(dag.get_dependencies("c"), Vec::<String>::new());
    assert_eq!(dag.get_dependencies("d"), vec!["c"]);
    assert_eq!(dag.get_dependencies("b"), vec!["a"]);
    assert_eq!(sorted(dag.get_dependents("a").unwrap()), vec!["b"]);
}

#[test]
fn dependencies_and_dependents() {
    let dag = graph(&["a", "b", "c"], &[("a", "c"), ("b", "c")]);
    assert_eq!(sorted(dag.get_dependencies("c")), vec!["a", "b"]);
    assert_eq!(dag.get_dependents("a").unwrap(), vec!["c"]);
    assert!(dag.get_dependents("c").is_none());
    assert!(dag.get_dependents("zzz").is_none());
    assert_eq!(dag.get_dependencies("zzz"), Vec::<String>::new());
}

#[test]
fn export_edges_lists_each_edge() {
    let dag = graph(&["a", "b", "c"], &[("a", "b"), ("a", "c"), ("b", "c")]);
    let mut edges = dag.export_edges();
    edges.sort();
    assert_eq!(
        edges,
        vec![
            ("a".to_string(), "b".to_string()),
            ("a".to_string(), "c".to_string()),
            ("b".to_string(), "c".to_string())
        ]
    );
    assert!(dag.contains_node("b"));
    assert!(!dag.contains_node("z"));
}
