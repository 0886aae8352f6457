use librarian::Location;

fn at(parts: &[&str]) -> Location {
    Location::from_parts(parts.iter().map(|part| part.to_string()).collect())
}

fn rooted(root: &str, parts: &[&str]) -> Location {
    Location::rooted(root.to_string(), parts.iter().map(|part| part.to_string()).collect())
}

#[test]
fn a_bare_root_has_no_parent_and_no_file_name() {
    let root = rooted("/", &[]);
    assert_eq!(root.len(), 0);
    assert!(root.parent().is_none());
    assert!(root.file_name().is_none());
    assert_eq!(root.tail(), "/");
}

#[test]
fn the_parent_keeps_the_root() {
    let parent = rooted("/", &["a"]).parent().unwrap();
    assert_eq!(parent.root, "/");
    assert!(parent.parts.is_empty());
    assert!(parent.same(&rooted("/", &[])));
    let parent = rooted("/", &["r", "b", "Cargo.toml"]).parent().unwrap();
    assert!(parent.same(&rooted("/", &["r", "b"])));
}

#[test]
fn join_push_and_prefix_keep_the_root() {
    let joined = rooted("/", &["a"]).join("b");
    assert_eq!(joined.root, "/");
    assert_eq!(joined.parts, vec!["a", "b"]);
    assert!(joined.prefix(1).same(&rooted("/", &["a"])));
    assert!(joined.prefix(0).same(&rooted("/", &[])));
    assert!(joined.duplicate().same(&joined));
}

#[test]
fn append_leaves_the_other_root_out() {
    let mut path = rooted("/", &["store"]);
    path.append(&rooted("C:", &["x", "y"]));
    assert_eq!(path.root, "/");
    assert_eq!(path.parts, vec!["store", "x", "y"]);
}

#[test]
fn locations_with_different_roots_differ() {
    assert!(!rooted("/", &["a"]).same(&at(&["a"])));
    assert!(!rooted("/", &["a", "b"]).starts_with(&at(&["a"])));
    assert!(!at(&["a", "b"]).starts_with(&rooted("/", &[])));
    assert!(rooted("/", &["a", "b"]).starts_with(&rooted("/", &[])));
    assert!(rooted("/", &["a", "b"]).starts_with(&rooted("/", &["a"])));
}

#[test]
fn tail_is_the_last_component() {
    assert_eq!(at(&["a", "b"]).tail(), "b");
    assert_eq!(Location::new().tail(), "");
}

#[test]
fn new_location_is_relative() {
    assert_eq!(Location::new().root, "");
    assert!(Location::new().same(&at(&[])));
}

#[test]
fn new_location_is_empty() {
    assert_eq!(Location::new().len(), 0);
    assert!(Location::new().parent().is_none());
    assert!(Location::new().file_name().is_none());
}

#[test]
fn join_appends_one_component() {
    let joined = at(&["a", "b"]).join("c");
    assert_eq!(joined.parts, vec!["a", "b", "c"]);
}

#[test]
fn append_appends_all_components() {
    let mut path = at(&["root"]);
    path.append(&at(&["se", "rd", "serde"]));
    assert_eq!(path.parts, vec!["root", "se", "rd", "serde"]);
}

#[test]
fn parent_drops_the_last_component() {
    assert_eq!(at(&["a", "b", "c"]).parent().unwrap().parts, vec!["a", "b"]);
    assert_eq!(at(&["a"]).parent().unwrap().len(), 0);
}

#[test]
fn file_name_is_the_last_component() {
    assert_eq!(at(&["a", "Cargo.toml"]).file_name(), Some("Cargo.toml"));
}

#[test]
fn prefix_takes_the_first_components() {
    assert_eq!(at(&["a", "b", "c"]).prefix(2).parts, vec!["a", "b"]);
    assert_eq!(at(&["a", "b", "c"]).prefix(0).len(), 0);
}

#[test]
fn duplicate_is_equal() {
    let path = at(&["x", "y"]);
    assert!(path.duplicate().same(&path));
}

#[test]
fn same_compares_components() {
    assert!(at(&["a", "b"]).same(&at(&["a", "b"])));
    assert!(!at(&["a", "b"]).same(&at(&["a", "c"])));
    assert!(!at(&["a", "b"]).same(&at(&["a"])));
}

#[test]
fn starts_with_is_by_components() {
    assert!(at(&["a", "b", "c"]).starts_with(&at(&["a", "b"])));
    assert!(at(&["a", "b"]).starts_with(&at(&["a", "b"])));
    assert!(at(&["a", "b"]).starts_with(&Location::new()));
    assert!(!at(&["a", "bc"]).starts_with(&at(&["a", "b"])));
    assert!(!at(&["a"]).starts_with(&at(&["a", "b"])));
}
