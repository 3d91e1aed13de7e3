use deebee::parse::FloatTable;
use deebee::value::{Number, ObjectMap};
use deebee::{Arrow, DeebeeError, Graph, Node, Value};
use std::collections::{HashMap, HashSet};

const ID1: &str = "00000000-0000-0000-0000-000000000001";
const ID2: &str = "00000000-0000-0000-0000-000000000002";

fn creation_message(r: Result<Graph, DeebeeError>) -> String {
    match r {
        Err(DeebeeError::InvalidCreation(m)) => m,
        Err(e) => panic!("unexpected error {e:?}"),
        Ok(_) => panic!("unexpected success"),
    }
}

fn json_message(r: Result<Graph, DeebeeError>) -> String {
    match r {
        Err(DeebeeError::InvalidJson(m)) => m,
        Err(e) => panic!("unexpected error {e:?}"),
        Ok(_) => panic!("unexpected success"),
    }
}

fn one_node(member: &str) -> String {
    format!("{{\"{ID1}\": {member}}}")
}

#[test]
fn reverse_of_reverse_is_the_arrow() {
    let a = Arrow::new("likes", "liked_by");
    assert_eq!(a.reverse().reverse(), a);
    assert_eq!(Arrow::LINKED().reverse(), Arrow::LINKED());
    assert_eq!(Arrow::PARENTS().reverse(), Arrow::CHILDREN());
    assert_eq!(Arrow::RECEIVING().reverse(), Arrow::POINTING());
}

#[test]
fn connect_links_both_ways_and_disconnect_unlinks_both() {
    let mut g = Graph::new();
    let a = g.add(Value::from("a")).id;
    let b = g.add(Value::from("b")).id;
    let follows = Arrow::new("follows", "followed_by");
    g.connect(a, b, &follows).unwrap();
    g.connect(a, b, &follows).unwrap();
    assert_eq!(g.get(a).unwrap().get(&follows), Some(&vec![b]));
    assert_eq!(g.get(b).unwrap().get(&follows.reverse()), Some(&vec![a]));
    assert_eq!(g.get(a).unwrap().len(), 1);
    g.disconnect(a, b, &follows).unwrap();
    assert!(!g.get(a).unwrap().contains(b, &follows));
    assert!(!g.get(b).unwrap().contains(a, &follows.reverse()));
    assert_eq!(g.get(a).unwrap().get(&follows), Some(&vec![]));
    assert!(g.get(a).unwrap().is_empty());
    assert_eq!(g.get(a).unwrap().len(), 0);
}

#[test]
fn connect_and_disconnect_report_missing_nodes() {
    let mut g = Graph::new();
    let a = g.add(Value::from(1)).id;
    let missing = a ^ 1;
    assert!(matches!(g.connect(missing, a, &Arrow::LINKED()), Err(DeebeeError::NodeNotFound(x)) if x == missing));
    assert!(matches!(g.connect(a, missing, &Arrow::LINKED()), Err(DeebeeError::NodeNotFound(x)) if x == missing));
    // Nothing changes when the target is missing: no one-way link is left.
    assert!(!g.get(a).unwrap().contains(missing, &Arrow::LINKED()));
    assert!(g.get(a).unwrap().get(&Arrow::LINKED()).is_none());
    assert!(g.get(a).unwrap().is_empty());
    assert!(matches!(g.disconnect(missing, a, &Arrow::LINKED()), Err(DeebeeError::NodeNotFound(x)) if x == missing));
    assert!(g.disconnect(a, a, &Arrow::LINKED()).is_ok());
    assert!(matches!(g.remove(missing), Err(DeebeeError::NodeNotFound(x)) if x == missing));
}

#[test]
fn remove_unlinks_every_neighbour() {
    let mut g = Graph::new();
    let hub = g.add(Value::from("hub")).id;
    let x = g.add(Value::from("x")).id;
    let y = g.add(Value::from("y")).id;
    g.connect(hub, x, &Arrow::CHILDREN()).unwrap();
    g.connect(y, hub, &Arrow::POINTING()).unwrap();
    g.remove(hub).unwrap();
    assert_eq!(g.len(), 2);
    assert!(!g.contains(hub));
    assert_eq!(g.get(x).unwrap().get(&Arrow::PARENTS()), Some(&vec![]));
    assert_eq!(g.get(y).unwrap().get(&Arrow::POINTING()), Some(&vec![]));
}

#[test]
fn traversal_gives_each_reachable_node_once_start_first() {
    let mut g = Graph::new();
    let n1 = g.add(Value::from(1)).id;
    let n2 = g.add(Value::from(2)).id;
    let n3 = g.add(Value::from(3)).id;
    let n4 = g.add(Value::from(4)).id;
    g.connect(n1, n2, &Arrow::LINKED()).unwrap();
    g.connect(n2, n3, &Arrow::LINKED()).unwrap();
    g.connect(n3, n1, &Arrow::LINKED()).unwrap();
    let all = g.traverse_all(n1).unwrap();
    assert_eq!(all[0].id, n1);
    let ids: Vec<u128> = all.iter().map(|n| n.id).collect();
    let set: HashSet<u128> = ids.iter().copied().collect();
    assert_eq!(ids.len(), 3);
    assert_eq!(set, HashSet::from([n1, n2, n3]));
    assert!(!set.contains(&n4));
    let only_self = g.traverse(n4, &Arrow::LINKED()).unwrap();
    assert_eq!(only_self.len(), 1);
    assert!(matches!(g.traverse_all(n4 ^ 7), Err(DeebeeError::NodeNotFound(_))));
}

#[test]
fn neighbour_queries_report_missing_start() {
    let g = Graph::new();
    assert!(matches!(g.neighbors(5, &Arrow::LINKED()), Err(DeebeeError::NodeNotFound(5))));
    assert!(matches!(g.all_neighbors(5), Err(DeebeeError::NodeNotFound(5))));
    assert!(matches!(g.find_neighbors(5, &Value::Null, &Arrow::LINKED()), Err(DeebeeError::NodeNotFound(5))));
    assert!(matches!(g.find_tree(5, &Value::Null, &Arrow::LINKED()), Err(DeebeeError::NodeNotFound(5))));
}

#[test]
fn graph_json_has_the_documented_layout() {
    assert_eq!(Graph::new().to_json(), "{\n\n}");
    let mut g = Graph::new();
    g.insert(Node::with_id(Value::from("x"), 1));
    g.insert(Node::with_id(Value::Null, 2));
    g.connect(1, 2, &Arrow::CHILDREN()).unwrap();
    let mut single = Graph::new();
    single.insert(Node::with_id(Value::from("x"), 1));
    assert_eq!(
        single.to_json(),
        format!("{{\n    \"{ID1}\": {{\n        \"data\": \"x\",\n        \"linked\": [\n            \n        ]\n    }}\n}}")
    );
    let text = g.to_json();
    let first = format!(
        "    \"{ID1}\": {{\n        \"data\": \"x\",\n        \"linked\": [\n            {{\"label\": \"children\", \"reverse\": \"parents\", \"neighbors\": [\"{ID2}\"]}}\n        ]\n    }}"
    );
    let second = format!(
        "    \"{ID2}\": {{\n        \"data\": null,\n        \"linked\": [\n            {{\"label\": \"parents\", \"reverse\": \"children\", \"neighbors\": [\"{ID1}\"]}}\n        ]\n    }}"
    );
    assert!(text == format!("{{\n{first},\n{second}\n}}") || text == format!("{{\n{second},\n{first}\n}}"));
    let mut out = String::from(">");
    g.write_json(&mut out);
    assert_eq!(out, format!(">{text}"));
}

#[test]
fn graph_json_round_trip_keeps_nodes_and_links() {
    let mut g = Graph::new();
    let mut data = ObjectMap::new();
    data.insert("name".to_string(), Value::from("Ann \"A\"\n"));
    data.insert("tags".to_string(), Value::List(vec![Value::Int(-7), Value::Bool(false), Value::Null]));
    let a = g.add(Value::Object(data)).id;
    let b = g.add(Value::from(i64::MIN)).id;
    let c = g.add(Value::List(vec![])).id;
    g.connect(a, b, &Arrow::LINKED()).unwrap();
    g.connect(a, c, &Arrow::CHILDREN()).unwrap();
    g.connect(c, c, &Arrow::POINTING()).unwrap();
    let back = Graph::from_json(&g.to_json()).unwrap();
    assert_eq!(back.len(), 3);
    for id in [a, b, c] {
        let (x, y) = (g.get(id).unwrap(), back.get(id).unwrap());
        assert_eq!(x.id, y.id);
        assert_eq!(x.data, y.data);
        let xs: HashSet<(String, String, u128)> =
            x.iter().into_iter().map(|(ar, n)| (ar.label.clone(), ar.reverse_label.clone(), n)).collect();
        let ys: HashSet<(String, String, u128)> =
            y.iter().into_iter().map(|(ar, n)| (ar.label.clone(), ar.reverse_label.clone(), n)).collect();
        assert_eq!(xs, ys);
    }
}

#[test]
fn from_map_checks_links() {
    let mut g = Graph::new();
    let a = g.add(Value::from("a")).id;
    let b = g.add(Value::from("b")).id;
    g.connect(a, b, &Arrow::CHILDREN()).unwrap();
    let mut missing: HashMap<u128, Node> = g.to_map().clone();
    missing.remove(&b);
    let msg = creation_message(Graph::from_map(missing));
    assert_eq!(msg, format!("Linked ID {} not in graph.", uuid::Uuid::from_u128(b)));

    let mut one_way: HashMap<u128, Node> = HashMap::new();
    one_way.insert(a, g.get(a).unwrap().clone());
    one_way.insert(b, Node::with_id(Value::from("b"), b));
    let msg = creation_message(Graph::from_map(one_way));
    let (ta, tb) = (uuid::Uuid::from_u128(a), uuid::Uuid::from_u128(b));
    assert_eq!(
        msg,
        format!("Bidirectionality of arrows not enforced: {ta} links with children (reverse parents) to {tb}, but {tb} does not link to {ta} through parents")
    );

    assert!(Graph::from_map(g.to_map().clone()).is_ok());
}

#[test]
fn from_json_reports_each_fault() {
    assert_eq!(json_message(Graph::from_json(" {}")), "JSON not an object at top-level.");
    assert_eq!(json_message(Graph::from_json("{")), "JSON not an object at top-level.");
    assert_eq!(json_message(Graph::from_json("{\"a\" 1}")), "JSON syntax error.");
    assert_eq!(json_message(Graph::from_json(&one_node("{\"data\": 1.5}"))), "Float literal not decoded: 1.5");
    assert!(Graph::from_json("{}").unwrap().is_empty());

    let bad_id = creation_message(Graph::from_json("{\"not-a-uuid\": {\"data\": 1}}"));
    assert_eq!(bad_id, uuid::Uuid::parse_str("not-a-uuid").unwrap_err().to_string());

    let cases = [
        ("1", format!("Node {ID1} data is not a JSON object (aka dictionary/HashMap).")),
        ("{}", format!("{ID1} does not have data.")),
        ("{\"data\": 1, \"linked\": 2}", format!("Node {ID1}'s linked nodes is not an array.")),
        ("{\"data\": 1, \"linked\": [3]}", format!("One of node {ID1}'s links is not a map.")),
        ("{\"data\": 1, \"linked\": [{}]}", format!("Node {ID1}'s linked nodes does not have a label.")),
        ("{\"data\": 1, \"linked\": [{\"label\": 1}]}", format!("One of node {ID1}'s arrow labels is not text.")),
        ("{\"data\": 1, \"linked\": [{\"label\": \"l\"}]}", format!("Node {ID1}'s linked nodes does not have a reverse label.")),
        (
            "{\"data\": 1, \"linked\": [{\"label\": \"l\", \"reverse\": 2}]}",
            format!("One of node {ID1}'s arrow reverse labels is not text."),
        ),
        (
            "{\"data\": 1, \"linked\": [{\"label\": \"l\", \"reverse\": \"r\", \"neighbors\": {}}]}",
            format!("Node {ID1}'s linked nodes is not an array."),
        ),
    ];
    for (member, expected) in cases.iter() {
        assert_eq!(&creation_message(Graph::from_json(&one_node(member))), expected);
    }
}

#[test]
fn from_json_reads_other_uuid_forms_and_skips_bad_neighbours() {
    let text = format!(
        "{{\"{{{}}}\": {{\"data\": true, \"linked\": [{{\"label\": \"l\", \"reverse\": \"l\", \"neighbors\": [\"{}\", 7, \"nope\", \"{}\"]}}]}}}}",
        ID1.to_uppercase(),
        ID1.replace('-', ""),
        ID1
    );
    let g = Graph::from_json(&text).unwrap();
    let n = g.get(1).unwrap();
    assert_eq!(n.data, Value::Bool(true));
    assert_eq!(n.get(&Arrow::new("l", "l")), Some(&vec![1]));
    assert_eq!(json_message(Graph::from_json("{\"a\": {\"data\": 1},}")), "JSON syntax error.");
}

#[test]
fn from_json_with_decodes_floats_from_the_table() {
    let text = one_node("{\"data\": [0.25, 1e400]}");
    let mut table = FloatTable::new();
    assert_eq!(Value::missing_float("[0.25, 1e400]", &table), Some("0.25".to_string()));
    table.add("0.25".to_string(), Number { bits: 0.25f64.to_bits(), text: "0.25".to_string() });
    assert_eq!(Value::missing_float("[0.25, 1e400]", &table), Some("1e400".to_string()));
    table.add("1e400".to_string(), Number { bits: f64::INFINITY.to_bits(), text: "inf".to_string() });
    assert_eq!(Value::missing_float("[0.25, 1e400]", &table), None);
    let g = Graph::from_json_with(&text, &table).unwrap();
    assert_eq!(g.get(1).unwrap().data.serialize(), "[0.25, null]");
}

#[test]
fn serialize_writes_exact_text() {
    let mut obj = ObjectMap::new();
    obj.insert("a".to_string(), Value::List(vec![Value::Int(1), Value::Int(-2), Value::from("s\n\u{1}")]));
    obj.insert("b".to_string(), Value::Null);
    obj.insert("a".to_string(), Value::Bool(false));
    assert_eq!(Value::Object(obj).serialize(), "{\"a\": false, \"b\": null}");
    assert_eq!(Value::from("s\n\u{1}\u{1f}").serialize(), "\"s\\n\\u0001\\u001f\"");
    assert_eq!(Value::List(vec![]).serialize(), "[]");
    assert_eq!(Value::Int(i64::MIN).serialize(), "-9223372036854775808");
    assert_eq!(Value::Int(0).serialize(), "0");
    assert_eq!(Value::escape("a/b\r"), "\"a/b\\r\"");
}

#[test]
fn deserialize_edges() {
    assert_eq!(Value::deserialize(" 9223372036854775807 ").unwrap(), Value::Int(i64::MAX));
    assert_eq!(Value::deserialize("-9223372036854775808").unwrap(), Value::Int(i64::MIN));
    assert!(matches!(
        Value::deserialize("9223372036854775808"),
        Err(DeebeeError::InvalidJson(m)) if m == "Float literal not decoded: 9223372036854775808"
    ));
    assert!(matches!(Value::deserialize("01"), Err(DeebeeError::InvalidJson(m)) if m == "JSON syntax error."));
    assert_eq!(Value::deserialize("\"\\ud83d\\ude00\\/\"").unwrap(), Value::from("\u{1f600}/"));
    assert!(Value::deserialize("\"\\ud83d\"").is_err());
    assert_eq!(Value::unescape("\\u00e9\\b\\f").unwrap(), "\u{e9}\u{8}\u{c}");
    assert!(matches!(Value::unescape("a\"b"), Err(DeebeeError::InvalidJson(m)) if m == "JSON syntax error."));
    let obj = Value::deserialize("{\"k\": 1, \"j\": 2, \"k\": 3}").unwrap();
    let mut expected = ObjectMap::new();
    expected.insert("k".to_string(), Value::Int(3));
    expected.insert("j".to_string(), Value::Int(2));
    assert_eq!(obj, Value::Object(expected));
    let members = Value::parse_collection("\"x\": [true]").unwrap();
    assert_eq!(members.get("x"), Some(&Value::List(vec![Value::Bool(true)])));
    assert!(Value::parse_collection("\"x\" [true]").is_err());
}

#[test]
fn value_equality_follows_ieee_and_ignores_key_order() {
    let zero = Value::Float(Number { bits: 0.0f64.to_bits(), text: "0".to_string() });
    let minus_zero = Value::Float(Number { bits: (-0.0f64).to_bits(), text: "-0".to_string() });
    let nan = Value::Float(Number { bits: f64::NAN.to_bits(), text: "NaN".to_string() });
    assert_eq!(zero, minus_zero);
    assert_ne!(nan, nan.clone());
    let mut a = ObjectMap::new();
    a.insert("x".to_string(), Value::Int(1));
    a.insert("y".to_string(), Value::Int(2));
    let mut b = ObjectMap::new();
    b.insert("y".to_string(), Value::Int(2));
    b.insert("x".to_string(), Value::Int(1));
    assert_eq!(Value::Object(a), Value::Object(b));
    assert_ne!(Value::Int(1), Value::from("1"));
}

#[test]
fn object_map_keeps_first_place_of_a_key() {
    let mut m = ObjectMap::new();
    assert_eq!(m.insert("a".to_string(), Value::Int(1)), None);
    m.insert("b".to_string(), Value::Int(2));
    assert_eq!(m.insert("a".to_string(), Value::Int(3)), Some(Value::Int(1)));
    assert_eq!(m.len(), 2);
    assert_eq!(m.position("a"), Some(0));
    assert_eq!(m.get("a"), Some(&Value::Int(3)));
    assert_eq!(m.remove("a"), Some(Value::Int(3)));
    assert!(!m.contains_key("a"));
    assert_eq!(m.position("b"), Some(0));
}

#[test]
fn nodes_get_fresh_version_four_ids() {
    let a = Node::new(Value::Null);
    let b = Node::new(Value::Null);
    assert_ne!(a.id, b.id);
    assert_eq!((a.id >> 76) & 0xf, 4);
    assert_eq!((a.id >> 62) & 0x3, 2);
}

#[test]
fn graph_editing_calls() {
    let mut g = Graph::new();
    let n = g.insert(Node::with_id(Value::from(5), 9)).id;
    assert_eq!(n, 9);
    g.extend(vec![(10, Node::with_id(Value::from(6), 10)), (9, Node::with_id(Value::from(7), 9))]);
    assert_eq!(g.len(), 2);
    assert_eq!(g.get(9).unwrap().data, Value::Int(7));
    g.get_mut(10).unwrap().set(Value::from("changed"));
    assert_eq!(g.find(&Value::from("changed")).len(), 1);
    assert_eq!(g.iter().len(), 2);
    assert!(g.get_mut(11).is_none());
    g.clear();
    assert!(g.is_empty());
}

#[test]
fn node_lists_its_links() {
    let mut g = Graph::new();
    let a = g.add(Value::Null).id;
    let b = g.add(Value::Null).id;
    let c = g.add(Value::Null).id;
    g.connect(a, b, &Arrow::LINKED()).unwrap();
    g.connect(a, c, &Arrow::LINKED()).unwrap();
    g.connect(a, c, &Arrow::CHILDREN()).unwrap();
    let node = g.get(a).unwrap();
    assert_eq!(node.len(), 3);
    assert_eq!(node.arrows().len(), 2);
    let pairs: Vec<(String, u128)> = node.iter().into_iter().map(|(ar, id)| (ar.label.clone(), id)).collect();
    assert_eq!(pairs, vec![("linked".to_string(), b), ("linked".to_string(), c), ("children".to_string(), c)]);
    let all = g.all_neighbors(a).unwrap();
    assert_eq!(all.len(), 3);
    assert_eq!(all[2].1.id, c);
    assert!(node.get(&Arrow::POINTING()).is_none());
}

#[test]
fn error_messages_name_the_fault() {
    assert_eq!(DeebeeError::NodeNotFound(1).message(), format!("Node ID {ID1} not in graph."));
    assert_eq!(DeebeeError::InvalidJson("x".to_string()).message(), "JSON Deserialization failed: x");
    assert_eq!(DeebeeError::InvalidCreation("y".to_string()).message(), "Invalid creation: y");
    let g = Graph::default();
    assert!(g.is_empty());
}

#[test]
fn a_fresh_node_keeps_every_link_returned() {
    let mut g = Graph::new();
    let a = g.add(Value::from(1)).id;
    let b = g.add(Value::from(2)).id;
    g.connect(a, b, &Arrow::POINTING()).unwrap();
    let c = g.add(Value::from(3)).id;
    g.connect(c, a, &Arrow::LINKED()).unwrap();
    for node in g.iter() {
        for (arrow, other) in node.iter() {
            assert!(g.get(other).unwrap().contains(node.id, &arrow.reverse()));
        }
    }
    assert!(Graph::from_map(g.to_map().clone()).is_ok());
}

#[test]
fn traversal_follows_depth_first_order() {
    let mut g = Graph::new();
    let n1 = g.add(Value::from(1)).id;
    let n2 = g.add(Value::from(2)).id;
    let n3 = g.add(Value::from(3)).id;
    let n4 = g.add(Value::from(4)).id;
    g.connect(n1, n2, &Arrow::LINKED()).unwrap();
    g.connect(n1, n3, &Arrow::LINKED()).unwrap();
    g.connect(n2, n4, &Arrow::LINKED()).unwrap();
    let order: Vec<u128> = g.traverse_all(n1).unwrap().iter().map(|n| n.id).collect();
    assert_eq!(order, vec![n1, n3, n2, n4]);
    let tree: Vec<u128> = g.find_tree(n1, &Value::from(2), &Arrow::LINKED()).unwrap().iter().map(|n| n.id).collect();
    assert_eq!(tree, vec![n2]);
}

#[test]
fn node_equality_ignores_link_order() {
    let mut g1 = Graph::new();
    let mut g2 = Graph::new();
    for g in [&mut g1, &mut g2] {
        g.insert(Node::with_id(Value::from("a"), 1));
        g.insert(Node::with_id(Value::Null, 2));
        g.insert(Node::with_id(Value::Null, 3));
    }
    g1.connect(1, 2, &Arrow::LINKED()).unwrap();
    g1.connect(1, 3, &Arrow::LINKED()).unwrap();
    g2.connect(1, 3, &Arrow::LINKED()).unwrap();
    g2.connect(1, 2, &Arrow::LINKED()).unwrap();
    assert_eq!(g1.get(1).unwrap(), g2.get(1).unwrap());
    g2.connect(1, 2, &Arrow::CHILDREN()).unwrap();
    assert_ne!(g1.get(1).unwrap(), g2.get(1).unwrap());
    assert_ne!(g1.get(2).unwrap(), g1.get(3).unwrap());
}

#[test]
fn floats_read_back_with_their_table() {
    let x = Value::Float(Number { bits: 1.5f64.to_bits(), text: "1.5".to_string() });
    let mut table = FloatTable::new();
    table.add("1.5".to_string(), Number { bits: 1.5f64.to_bits(), text: "1.5".to_string() });
    let v = Value::List(vec![x, Value::Int(2)]);
    assert_eq!(Value::deserialize_with(&v.serialize(), &table).unwrap(), v);
    let mut g = Graph::new();
    let id = g.add(v.clone()).id;
    let back = Graph::from_json_with(&g.to_json(), &table).unwrap();
    assert_eq!(back.get(id).unwrap().data, v);
    assert_eq!(back.get(id).unwrap(), g.get(id).unwrap());
}

#[test]
fn disconnect_undoes_connect() {
    let mut g = Graph::new();
    let a = g.add(Value::from("a")).id;
    let b = g.add(Value::from("b")).id;
    g.connect(a, b, &Arrow::LINKED()).unwrap();
    let before: Vec<(u128, Vec<(String, u128)>)> = [a, b]
        .iter()
        .map(|id| (*id, g.get(*id).unwrap().iter().into_iter().map(|(ar, n)| (ar.label.clone(), n)).collect()))
        .collect();
    g.connect(a, b, &Arrow::CHILDREN()).unwrap();
    g.disconnect(a, b, &Arrow::CHILDREN()).unwrap();
    let after: Vec<(u128, Vec<(String, u128)>)> = [a, b]
        .iter()
        .map(|id| (*id, g.get(*id).unwrap().iter().into_iter().map(|(ar, n)| (ar.label.clone(), n)).collect()))
        .collect();
    assert_eq!(before, after);
    assert_eq!(g.get(a).unwrap().get(&Arrow::CHILDREN()), Some(&vec![]));
}

#[test]
fn object_keys_are_escaped() {
    let mut obj = ObjectMap::new();
    obj.insert("\"".to_string(), Value::Int(1));
    let text = Value::Object(obj).serialize();
    assert_eq!(text, "{\"\\\"\": 1}");
    let mut two = ObjectMap::new();
    two.insert("a\\b\n".to_string(), Value::Null);
    two.insert("q\"".to_string(), Value::from("v"));
    let v = Value::Object(two);
    let back = Value::deserialize(&v.serialize()).unwrap();
    assert_eq!(back, v);
}

#[test]
fn arrow_labels_are_escaped_in_json() {
    let mut g = Graph::new();
    g.insert(Node::with_id(Value::Null, 1));
    g.insert(Node::with_id(Value::Null, 2));
    let odd = Arrow::new("say \"hi\"", "back\\slash");
    g.connect(1, 2, &odd).unwrap();
    let text = g.to_json();
    assert!(text.contains("{\"label\": \"say \\\"hi\\\"\", \"reverse\": \"back\\\\slash\", \"neighbors\": [\""));
    let back = Graph::from_json(&text).unwrap();
    assert!(back.get(1).unwrap().contains(2, &odd));
    assert!(back.get(2).unwrap().contains(1, &odd.reverse()));
}

#[test]
fn remove_a_node_linked_to_itself() {
    let mut g = Graph::new();
    let a = g.add(Value::from(1)).id;
    let b = g.add(Value::from(2)).id;
    g.connect(a, a, &Arrow::LINKED()).unwrap();
    g.connect(a, a, &Arrow::CHILDREN()).unwrap();
    g.connect(a, b, &Arrow::POINTING()).unwrap();
    assert_eq!(g.get(a).unwrap().len(), 4);
    g.remove(a).unwrap();
    assert!(!g.contains(a));
    assert_eq!(g.len(), 1);
    assert!(g.get(b).unwrap().is_empty());
    let mut single = Graph::new();
    let c = single.add(Value::from(3)).id;
    single.connect(c, c, &Arrow::LINKED()).unwrap();
    assert!(single.remove(c).is_ok());
    assert!(single.is_empty());
}

#[test]
fn graphs_parse_from_text_and_convert_from_maps() {
    let g: Graph = format!("{{\"{ID1}\": {{\"data\": 5}}}}").parse().unwrap();
    assert_eq!(g.get(1).unwrap().data, Value::Int(5));
    let bad: Result<Graph, DeebeeError> = "[]".parse();
    assert!(matches!(bad, Err(DeebeeError::InvalidJson(_))));
    let mut m = HashMap::new();
    m.insert(7u128, Node::with_id(Value::Null, 7));
    let h = Graph::try_from(m).unwrap();
    assert!(h.contains(7));
    let mut n = Node::with_id(Value::Null, 8);
    let mut other = Graph::new();
    other.insert(Node::with_id(Value::Null, 9));
    other.insert(n.clone());
    other.connect(8, 9, &Arrow::LINKED()).unwrap();
    n = other.get(8).unwrap().clone();
    let mut broken = HashMap::new();
    broken.insert(8u128, n);
    assert!(matches!(Graph::try_from(broken), Err(DeebeeError::InvalidCreation(_))));
}

#[test]
fn disconnect_undoes_connect_of_a_node_to_itself() {
    let mut g = Graph::new();
    let a = g.add(Value::from("a")).id;
    for arrow in [Arrow::LINKED(), Arrow::CHILDREN()] {
        g.connect(a, a, &arrow).unwrap();
        assert!(g.get(a).unwrap().contains(a, &arrow));
        assert!(g.get(a).unwrap().contains(a, &arrow.reverse()));
        g.disconnect(a, a, &arrow).unwrap();
        assert!(g.get(a).unwrap().is_empty());
    }
    assert_eq!(g.get(a).unwrap().get(&Arrow::LINKED()), Some(&vec![]));
    assert_eq!(g.get(a).unwrap().get(&Arrow::PARENTS()), Some(&vec![]));
}

#[test]
fn from_str_reports_what_from_json_reports() {
    let not_object: Result<Graph, DeebeeError> = "[]".parse();
    assert!(not_object.err() == Some(DeebeeError::InvalidJson("JSON not an object at top-level.".to_string())));
    let no_data: Result<Graph, DeebeeError> = one_node("{\"linked\": []}").parse();
    assert!(no_data.err() == Some(DeebeeError::InvalidCreation(format!("{ID1} does not have data."))));
    assert!(DeebeeError::NodeNotFound(1) == DeebeeError::NodeNotFound(1));
    assert!(DeebeeError::NodeNotFound(1) != DeebeeError::NodeNotFound(2));
    assert!(DeebeeError::InvalidJson("x".to_string()) != DeebeeError::InvalidCreation("x".to_string()));
}

#[test]
fn cloned_nodes_keep_everything_and_add_grows_the_graph() {
    let mut g = Graph::new();
    let a = g.add(Value::from("a")).id;
    let before = g.len();
    let b = g.add(Value::from("b")).id;
    assert_eq!(g.len(), before + 1);
    g.connect(a, b, &Arrow::CHILDREN()).unwrap();
    let n = g.get(a).unwrap().clone();
    assert_eq!(n.id, a);
    assert_eq!(n.data, Value::from("a"));
    assert_eq!(n.get(&Arrow::CHILDREN()), Some(&vec![b]));
    assert!(&n == g.get(a).unwrap());
}

#[test]
fn vectors_of_convertible_items_become_lists() {
    assert_eq!(Value::from(vec![1i32, -2]), Value::List(vec![Value::Int(1), Value::Int(-2)]));
    assert_eq!(Value::from(vec!["x"]), Value::List(vec![Value::from("x")]));
    assert_eq!(Value::from(vec![Value::Null, Value::Bool(true)]), Value::List(vec![Value::Null, Value::Bool(true)]));
    assert_eq!(Value::from(Vec::<bool>::new()), Value::List(vec![]));
}
