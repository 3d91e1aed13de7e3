use deebee::{Arrow, Graph, Value};

#[test]
fn test_serialization_test_serialization_overall() {
    let mut graph = Graph::new();

    let grandpa = graph.add(Value::from("Grandpa Joe")).id;
    let dad = graph.add(Value::from("Dad")).id;
    let bob = graph.add(Value::from("Bob")).id;

    graph.connect(grandpa, dad, &Arrow::CHILDREN()).unwrap();
    graph.connect(dad, bob, &Arrow::CHILDREN()).unwrap();

    let json = graph.to_json();
    println!("Saved:\n{json}");
}
