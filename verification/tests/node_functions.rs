use deebee::{Arrow, Node, Value};

#[test]
fn test_node_functions_test_arrow_reverse() {
    let custom_arrow = Arrow::new("likes", "liked_by");
    let reversed = custom_arrow.reverse();

    assert_eq!(reversed.label, "liked_by");
    assert_eq!(reversed.reverse_label, "likes");
    assert_eq!(reversed.reverse(), custom_arrow);

    assert_eq!(Arrow::CHILDREN().reverse(), Arrow::PARENTS());
    assert_eq!(Arrow::POINTING().reverse(), Arrow::RECEIVING());
}

#[test]
fn test_node_functions_test_node_creation() {
    let node = Node::new(Value::from("test data"));
    assert_eq!(node.data, Value::Text("test data".to_string()));
    assert!(node.is_empty());
    assert_eq!(node.len(), 0);
}

#[test]
fn test_node_functions_test_node_with_id_and_mutation() {
    let id = uuid::Uuid::new_v4().as_u128();
    let mut node = Node::with_id(Value::from(42), id);

    assert_eq!(node.id, id);
    assert_eq!(node.data, Value::Int(42));

    node.set(Value::from(true));
    assert_eq!(node.data, Value::Bool(true));
}
