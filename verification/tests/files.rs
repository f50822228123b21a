use kairo::files::bytes_less_or_equal;
use kairo::{greet, sort_nodes, FileNode};

fn dir(name: &str) -> FileNode {
    FileNode::directory(name.to_string(), format!("/ws/{}", name), Vec::new())
}

fn file(name: &str) -> FileNode {
    FileNode::file(name.to_string(), format!("/ws/{}", name), Some("kairo".to_string())).unwrap()
}

fn names(nodes: &[FileNode]) -> Vec<&str> {
    nodes.iter().map(|n| n.name.as_str()).collect()
}

#[test]
fn directory_entry_holds_its_children() {
    let node = FileNode::directory("docs".to_string(), "/ws/docs".to_string(), vec![file("a.kairo")]);
    assert_eq!(node.name, "docs");
    assert_eq!(node.path, "/ws/docs");
    assert!(node.is_directory);
    assert_eq!(names(node.children.as_ref().unwrap()), vec!["a.kairo"]);
}

#[test]
fn canvas_file_is_listed() {
    let node = FileNode::file("a.kairo".to_string(), "/ws/a.kairo".to_string(), Some("kairo".to_string()));
    let node = node.unwrap();
    assert_eq!(node.name, "a.kairo");
    assert_eq!(node.path, "/ws/a.kairo");
    assert!(!node.is_directory);
    assert!(node.children.is_none());
}

#[test]
fn other_files_are_not_listed() {
    assert!(FileNode::file("a.txt".to_string(), "/ws/a.txt".to_string(), Some("txt".to_string())).is_none());
    assert!(FileNode::file("a".to_string(), "/ws/a".to_string(), None).is_none());
    assert!(FileNode::file("a.KAIRO".to_string(), "/ws/a.KAIRO".to_string(), Some("KAIRO".to_string())).is_none());
    assert!(FileNode::file("a.kairo2".to_string(), "/ws/a.kairo2".to_string(), Some("kairo2".to_string())).is_none());
    assert!(FileNode::file("a.".to_string(), "/ws/a.".to_string(), Some(String::new())).is_none());
}

#[test]
fn directories_stand_before_files_and_names_decide_the_rest() {
    let sorted = sort_nodes(vec![
        file("b.kairo"),
        dir("zeta"),
        file("a.kairo"),
        dir("alpha"),
        file("B.kairo"),
        dir("Beta"),
    ]);
    assert_eq!(names(&sorted), vec!["Beta", "alpha", "zeta", "B.kairo", "a.kairo", "b.kairo"]);
    let kinds: Vec<bool> = sorted.iter().map(|n| n.is_directory).collect();
    assert_eq!(kinds, vec![true, true, true, false, false, false]);
}

#[test]
fn sorting_agrees_with_the_order_of_strings() {
    let given = vec!["b", "", "ab", "a", "abc", "é", "z", "Z", "a b", "10", "9", "aé", "日本"];
    let sorted = sort_nodes(given.iter().map(|n| dir(n)).collect());
    let mut expected: Vec<&str> = given.clone();
    expected.sort();
    assert_eq!(names(&sorted), expected);
}

#[test]
fn entries_of_one_name_keep_their_order() {
    let mut first = file("same.kairo");
    first.path = "first".to_string();
    let mut second = file("same.kairo");
    second.path = "second".to_string();
    let mut third = file("same.kairo");
    third.path = "third".to_string();
    let sorted = sort_nodes(vec![first, file("zz.kairo"), second, dir("same.kairo"), third, file("aa.kairo")]);
    let paths: Vec<&str> = sorted.iter().map(|n| n.path.as_str()).collect();
    assert_eq!(paths, vec!["/ws/same.kairo", "/ws/aa.kairo", "first", "second", "third", "/ws/zz.kairo"]);
}

#[test]
fn sorting_nothing_gives_nothing() {
    assert!(sort_nodes(Vec::new()).is_empty());
    assert_eq!(names(&sort_nodes(vec![file("only.kairo")])), vec!["only.kairo"]);
}

#[test]
fn sorting_keeps_the_children() {
    let inner = FileNode::directory("inner".to_string(), "/ws/d/inner".to_string(), vec![file("x.kairo")]);
    let outer = FileNode::directory("d".to_string(), "/ws/d".to_string(), vec![inner, file("y.kairo")]);
    let sorted = sort_nodes(vec![file("a.kairo"), outer]);
    assert_eq!(names(&sorted), vec!["d", "a.kairo"]);
    let below = sorted[0].children.as_ref().unwrap();
    assert_eq!(names(below), vec!["inner", "y.kairo"]);
    assert_eq!(names(below[0].children.as_ref().unwrap()), vec!["x.kairo"]);
}

#[test]
fn entry_stands_before_itself_and_what_follows_it() {
    assert!(dir("a").stands_before(&dir("a")));
    assert!(dir("a").stands_before(&dir("b")));
    assert!(!dir("b").stands_before(&dir("a")));
    assert!(dir("z").stands_before(&file("a.kairo")));
    assert!(!file("a.kairo").stands_before(&dir("z")));
    assert!(file("a.kairo").stands_before(&file("a.kairo.kairo")));
}

#[test]
fn bytes_are_compared_in_the_order_of_the_dictionary() {
    assert!(bytes_less_or_equal(b"", b""));
    assert!(bytes_less_or_equal(b"", b"a"));
    assert!(!bytes_less_or_equal(b"a", b""));
    assert!(bytes_less_or_equal(b"abc", b"abd"));
    assert!(!bytes_less_or_equal(b"abd", b"abc"));
    assert!(bytes_less_or_equal(b"ab", b"abc"));
    assert!(!bytes_less_or_equal(b"abc", b"ab"));
    assert!(bytes_less_or_equal(b"abc", b"abc"));
    assert!(bytes_less_or_equal(&[0x7f], &[0x80]));
    assert!(!bytes_less_or_equal(&[0xff], &[0x00, 0xff]));
}

#[test]
fn greeting_names_the_one_greeted() {
    assert_eq!(greet("Ada"), "Hello, Ada! You've been greeted from Rust!");
    assert_eq!(greet(" "), "Hello,  ! You've been greeted from Rust!");
    assert_eq!(greet("Zoë"), "Hello, Zoë! You've been greeted from Rust!");
}

#[test]
fn greeting_without_a_name_is_for_anonymous() {
    assert_eq!(greet(""), "Hello, Anonymous! You've been greeted from Rust!");
}
