use kairo::connections::find_connection;
use kairo::geometry::bounding_box;
use kairo::model::{clone_boxes, clone_connections, find_box};
use kairo::selection::contains_id;
use kairo::{BoundingBox, Box, CanvasState, Connection, ConnectionType};

fn named(id: &str, x: i32) -> Box {
    Box {
        id: id.to_string(),
        x,
        y: 0,
        width: 1,
        height: 1,
        text: format!("text of {}", id),
        selected: x % 2 == 0,
        color: if x > 0 { Some(format!("color {}", x)) } else { None },
    }
}

fn link(from: &str, to: &str, kind: ConnectionType) -> Connection {
    Connection { from: from.to_string(), to: to.to_string(), kind }
}

#[test]
fn find_box_gives_the_first_box_of_a_name() {
    let boxes = vec![named("a", 0), named("b", 1), named("a", 2), named("", 3)];
    assert_eq!(find_box(&boxes, &"a".to_string()), Some(0));
    assert_eq!(find_box(&boxes, &"b".to_string()), Some(1));
    assert_eq!(find_box(&boxes, &"".to_string()), Some(3));
    assert_eq!(find_box(&boxes, &"A".to_string()), None);
    assert_eq!(find_box(&Vec::new(), &"a".to_string()), None);
}

#[test]
fn find_connection_looks_both_ways() {
    let connections = vec![
        link("a", "b", ConnectionType::Forward),
        link("c", "a", ConnectionType::NoDirection),
        link("b", "a", ConnectionType::Bidirectional),
    ];
    let (a, b, c) = ("a".to_string(), "b".to_string(), "c".to_string());
    assert_eq!(find_connection(&connections, &a, &b), Some(0));
    assert_eq!(find_connection(&connections, &b, &a), Some(0));
    assert_eq!(find_connection(&connections, &a, &c), Some(1));
    assert_eq!(find_connection(&connections, &b, &c), None);
    assert_eq!(find_connection(&connections, &a, &a), None);
    assert_eq!(find_connection(&Vec::new(), &a, &b), None);
}

#[test]
fn connection_joins_its_two_ends() {
    let c = link("a", "b", ConnectionType::Forward);
    let (a, b, x) = ("a".to_string(), "b".to_string(), "x".to_string());
    assert!(c.joins(&a, &b));
    assert!(c.joins(&b, &a));
    assert!(!c.joins(&a, &x));
    assert!(!c.joins(&x, &b));
    assert!(!c.joins(&a, &a));
    let own = link("a", "a", ConnectionType::Forward);
    assert!(own.joins(&a, &a));
    assert!(!own.joins(&a, &b));
}

#[test]
fn contains_id_compares_whole_strings() {
    let ids = vec!["a".to_string(), "bc".to_string(), String::new()];
    assert!(contains_id(&ids, &"a".to_string()));
    assert!(contains_id(&ids, &"bc".to_string()));
    assert!(contains_id(&ids, &String::new()));
    assert!(!contains_id(&ids, &"b".to_string()));
    assert!(!contains_id(&ids, &"abc".to_string()));
    assert!(!contains_id(&Vec::new(), &"a".to_string()));
}

#[test]
fn copies_are_equal_and_apart() {
    let boxes = vec![named("a", 0), named("b", 1)];
    let mut copy = clone_boxes(&boxes);
    assert_eq!(copy.len(), 2);
    for (a, b) in boxes.iter().zip(copy.iter()) {
        assert_eq!((&a.id, a.x, a.y, a.width, a.height), (&b.id, b.x, b.y, b.width, b.height));
        assert_eq!((&a.text, a.selected, &a.color), (&b.text, b.selected, &b.color));
    }
    copy[0].x = 9;
    assert_eq!(boxes[0].x, 0);
    let one = boxes[1].clone();
    assert_eq!((one.id.as_str(), one.x, one.color.as_deref()), ("b", 1, Some("color 1")));

    let connections = vec![link("a", "b", ConnectionType::Bidirectional)];
    let copy = clone_connections(&connections);
    assert_eq!(copy.len(), 1);
    assert_eq!((copy[0].from.as_str(), copy[0].to.as_str(), copy[0].kind), ("a", "b", ConnectionType::Bidirectional));
    let one = connections[0].clone();
    assert_eq!((one.from.as_str(), one.to.as_str(), one.kind), ("a", "b", ConnectionType::Bidirectional));

    let state = CanvasState { boxes, connections };
    let other = state.clone();
    assert_eq!(other.boxes.len(), 2);
    assert_eq!(other.connections.len(), 1);
    assert_eq!(other.boxes[1].id, "b");
}

#[test]
fn bounding_box_of_a_list() {
    assert_eq!(bounding_box(&Vec::new()), None);
    let boxes = vec![named("a", 4), named("b", -3), named("c", 0)];
    assert_eq!(bounding_box(&boxes), Some(BoundingBox { x: -3, y: 0, width: 8, height: 1 }));
}
