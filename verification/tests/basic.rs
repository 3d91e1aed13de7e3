use deebee::{Arrow, Graph, Node, Value};

#[test]
fn test_basic() {
    let mut graph = Graph::new();

    let a = Node::new(Value::from("data"));

    let a_id = graph.insert(a).id;

    let b_id = graph.add(Value::from(vec!["Magic", "From", "Trait", "Impls"])).id;

    graph.connect(a_id, b_id, &Arrow::CHILDREN()).unwrap();

    if let Some(a) = graph.get_mut(a_id) {
        a.set(Value::from("daddy"))
    }

    assert_eq!(Value::Text("daddy".to_string()), graph.get(a_id).unwrap().data);

    assert_eq!(Value::Text("daddy".to_string()), graph.find(&Value::from("daddy"))[0].data);
}
