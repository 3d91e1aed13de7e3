use deebee::value::ObjectMap;
use deebee::{Arrow, Graph, Node, Value};
use std::collections::HashMap;

#[test]
fn test_social_network_scenario() {
    let mut db = Graph::new();

    let follows = Arrow::new("follows", "followed_by");

    let mut alice_data = ObjectMap::new();
    alice_data.insert("name".to_string(), Value::from("Alice"));
    alice_data.insert("age".to_string(), Value::from(28));

    let mut bob_data = ObjectMap::new();
    bob_data.insert("name".to_string(), Value::from("Bob"));
    bob_data.insert("age".to_string(), Value::from(32));

    let alice_id = db.add(Value::from(alice_data)).id;
    let bob_id = db.add(Value::from(bob_data)).id;
    let charlie_id = db.add(Value::from("Charlie (Minimal Profile)")).id;

    db.connect(alice_id, bob_id, &follows).unwrap();
    db.connect(bob_id, charlie_id, &follows).unwrap();

    assert_eq!(db.len(), 3);

    let alice_node = db.get(alice_id).unwrap();
    assert!(alice_node.contains(bob_id, &follows));

    let bob_node = db.get(bob_id).unwrap();
    assert!(bob_node.contains(alice_id, &follows.reverse()));

    let charlie_tree: Vec<&Node> =
        db.find_tree(alice_id, &Value::from("Charlie (Minimal Profile)"), &follows).unwrap();
    assert_eq!(charlie_tree.len(), 1);
    assert_eq!(charlie_tree[0].id, charlie_id);

    db.remove(bob_id).unwrap();

    let alice_node_after = db.get(alice_id).unwrap();
    assert!(!alice_node_after.contains(bob_id, &follows));
    assert_eq!(db.len(), 2);
}

#[test]
fn test_from_map_and_manual_insertion() {
    let mut manual_map = HashMap::new();

    let node1 = Node::new(Value::from(100));
    let node2 = Node::new(Value::from(200));

    manual_map.insert(node1.id, node1.clone());
    manual_map.insert(node2.id, node2.clone());

    let mut graph = Graph::from_map(manual_map).unwrap();

    assert_eq!(graph.len(), 2);

    let node3 = Node::new(Value::from(300));
    graph.insert(node3.clone());

    assert!(graph.contains(node3.id));
}
