use deebee::{Arrow, Graph, Node, Value};
use std::collections::HashSet;

#[test]
fn test_graph_functions_test_graph_initialization() {
    let graph = Graph::new();
    assert!(graph.is_empty());
    assert_eq!(graph.len(), 0);
}

#[test]
fn test_graph_functions_test_node_addition_and_removal() {
    let mut graph = Graph::new();

    let node_id = graph.add(Value::from("First Node")).id;
    assert_eq!(graph.len(), 1);
    assert!(graph.contains(node_id));

    graph.remove(node_id).unwrap();
    assert!(graph.is_empty());
    assert!(!graph.contains(node_id));
}

#[test]
fn test_graph_functions_test_bidirectional_connections() {
    let mut graph = Graph::new();
    let n1 = graph.add(Value::from("Node 1")).id;
    let n2 = graph.add(Value::from("Node 2")).id;

    graph.connect(n1, n2, &Arrow::CHILDREN()).unwrap();

    assert!(graph.get(n1).unwrap().contains(n2, &Arrow::CHILDREN()));
    assert!(graph.get(n2).unwrap().contains(n1, &Arrow::PARENTS()));

    graph.disconnect(n1, n2, &Arrow::CHILDREN()).unwrap();
    assert!(!graph.get(n1).unwrap().contains(n2, &Arrow::CHILDREN()));
    assert!(!graph.get(n2).unwrap().contains(n1, &Arrow::PARENTS()));
}

#[test]
fn test_graph_functions_test_graph_traversal() {
    let mut graph = Graph::new();
    let n1 = graph.add(Value::from(1)).id;
    let n2 = graph.add(Value::from(2)).id;
    let n3 = graph.add(Value::from(3)).id;
    let n4 = graph.add(Value::from(4)).id;

    graph.connect(n1, n2, &Arrow::POINTING()).unwrap();
    graph.connect(n1, n3, &Arrow::POINTING()).unwrap();
    graph.connect(n2, n4, &Arrow::POINTING()).unwrap();

    let traversed: HashSet<u128> = graph.traverse_all(n1).unwrap().iter().map(|n| n.id).collect();

    assert_eq!(traversed.len(), 4);
    assert!(traversed.contains(&n1));
    assert!(traversed.contains(&n2));
    assert!(traversed.contains(&n3));
    assert!(traversed.contains(&n4));
}

#[test]
fn test_graph_functions_test_filtered_traversal() {
    let mut graph = Graph::new();
    let n1 = graph.add(Value::from(1)).id;
    let n2 = graph.add(Value::from(2)).id;
    let n3 = graph.add(Value::from(3)).id;

    graph.connect(n1, n2, &Arrow::POINTING()).unwrap();
    graph.connect(n1, n3, &Arrow::LINKED()).unwrap();

    let pointing_traversed: HashSet<u128> =
        graph.traverse(n1, &Arrow::POINTING()).unwrap().iter().map(|n| n.id).collect();
    assert_eq!(pointing_traversed.len(), 2);
    assert!(pointing_traversed.contains(&n1));
    assert!(pointing_traversed.contains(&n2));
    assert!(!pointing_traversed.contains(&n3));
}

#[test]
fn test_graph_functions_test_find_mechanics() {
    let mut graph = Graph::new();
    let target_val = "target";

    let n1 = graph.add(Value::from(target_val)).id;
    let n2 = graph.add(Value::from("ignore")).id;
    let n3 = graph.add(Value::from(target_val)).id;

    let found: Vec<&Node> = graph.find(&Value::from(target_val));
    assert_eq!(found.len(), 2);
    assert!(found.iter().any(|node| node.id == n1));
    assert!(found.iter().any(|node| node.id == n3));
    assert!(!found.iter().any(|node| node.id == n2));
}

#[test]
fn test_graph_functions_test_neighbors() {
    let mut graph = Graph::new();
    let n1 = graph.add(Value::from(1)).id;
    let n2 = graph.add(Value::from(2)).id;
    let n3 = graph.add(Value::from(3)).id;

    graph.connect(n1, n2, &Arrow::POINTING()).unwrap();
    graph.connect(n1, n3, &Arrow::LINKED()).unwrap();

    let neighbors: Vec<&Node> = graph.neighbors(n1, &Arrow::POINTING()).unwrap();
    assert_eq!(neighbors.len(), 1);
    assert_eq!(neighbors[0].id, n2);

    let all_neighbors: Vec<(&Arrow, &Node)> = graph.all_neighbors(n1).unwrap();
    assert_eq!(all_neighbors.len(), 2);
}

#[test]
fn test_graph_functions_test_find_neighbors_and_tree() {
    let mut graph = Graph::new();
    let n1 = graph.add(Value::from(1)).id;
    let n2 = graph.add(Value::from("target")).id;
    let n3 = graph.add(Value::from("target")).id;
    let n4 = graph.add(Value::from("ignore")).id;

    graph.connect(n1, n2, &Arrow::POINTING()).unwrap();
    graph.connect(n1, n3, &Arrow::POINTING()).unwrap();
    graph.connect(n1, n4, &Arrow::POINTING()).unwrap();

    let n5 = graph.add(Value::from("target")).id;
    graph.connect(n3, n5, &Arrow::POINTING()).unwrap();

    let found_neighbors: Vec<&Node> = graph.find_neighbors(n1, &Value::from("target"), &Arrow::POINTING()).unwrap();
    assert_eq!(found_neighbors.len(), 2);

    let found_tree: Vec<&Node> = graph.find_tree(n1, &Value::from("target"), &Arrow::POINTING()).unwrap();
    assert_eq!(found_tree.len(), 3);
}
