use deebee::{Arrow, Graph, Value};

#[test]
fn test_round_trip_test_serialization_overall() {
    let mut graph = Graph::new();

    let grandpa = graph.add(Value::from("Grandpa Joe")).id;
    let dad = graph.add(Value::from("Dad")).id;
    let bob = graph.add(Value::from("Bob")).id;

    graph.connect(grandpa, dad, &Arrow::CHILDREN()).unwrap();
    graph.connect(dad, bob, &Arrow::CHILDREN()).unwrap();

    let json = graph.to_json();
    println!("Saved:\n{json}");

    let graph: Graph = json.parse().expect("Failed to deserialize.");

    let bob_node = graph.find(&Value::from("Bob"))[0];
    let dad_node = graph.find(&Value::from("Dad"))[0];

    println!("\nBob's parents: {:?}", bob_node.get(&Arrow::PARENTS()));
    println!("Dad's children: {:?}", dad_node.get(&Arrow::CHILDREN()));

    assert_eq!(bob_node.get(&Arrow::PARENTS()), Some(&vec![dad]));
    assert_eq!(dad_node.get(&Arrow::CHILDREN()), Some(&vec![bob]));
}

#[test]
fn test_round_trip_test_json_serialization_roundtrip() {
    let mut graph = Graph::new();
    let n1 = graph.add(Value::from("Alice")).id;
    let n2 = graph.add(Value::from("Bob")).id;
    graph.connect(n1, n2, &Arrow::LINKED()).unwrap();

    let json_str = graph.to_json();

    let new_graph = Graph::from_json(&json_str).expect("Failed to parse generated JSON");

    assert_eq!(new_graph.len(), 2);
    assert!(new_graph.contains(n1));
    assert!(new_graph.contains(n2));
    assert!(new_graph.get(n1).unwrap().contains(n2, &Arrow::LINKED()));
}
