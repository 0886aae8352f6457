use librarian::tree::{holds_beneath, listing, top_level_manifests};
use librarian::walk::EntryKind;
use librarian::Location;

fn at(path: &str) -> Location {
    Location::from_parts(
        path.split('/').filter(|part| !part.is_empty()).map(|part| part.to_string()).collect(),
    )
}

fn tree(files: &[&str]) -> Vec<Location> {
    files.iter().map(|file| at(file)).collect()
}

fn create_manifest_at(files: &mut Vec<Location>, path: &str) -> String {
    let manifest_path = at(path).join("Cargo.toml");
    files.push(manifest_path.duplicate());
    manifest_path.parts.join("/")
}

fn found(files: &[&str]) -> Vec<String> {
    top_level_manifests(&Location::new(), &tree(files)).iter().map(|path| path.parts.join("/")).collect()
}

#[test]
fn test_top_level_manifests() {
    let mut temp = Vec::new();
    let a = create_manifest_at(&mut temp, "a/b");
    let b = create_manifest_at(&mut temp, "b");
    create_manifest_at(&mut temp, "b/c/d");
    let c = create_manifest_at(&mut temp, "c/d");

    let mut seen: Vec<String> =
        top_level_manifests(&Location::new(), &temp).iter().map(|path| path.parts.join("/")).collect();
    seen.sort();
    let mut expected = vec![a, b, c];
    expected.sort();
    assert_eq!(seen, expected);
}

#[test]
fn top_level_manifests_beneath_an_absolute_root() {
    let root =
        Location::rooted("/".to_string(), vec!["tmp".to_string(), "store".to_string()]);
    let files = vec![
        root.join("a").join("b").join("Cargo.toml"),
        root.join("b").join("Cargo.toml"),
        root.join("b").join("c").join("d").join("Cargo.toml"),
        root.join("c").join("d").join("Cargo.toml"),
        Location::rooted("/".to_string(), vec!["tmp".to_string(), "Cargo.toml".to_string()]),
        at("tmp/store/x/Cargo.toml"),
    ];
    let seen = top_level_manifests(&root, &files);
    let shown: Vec<String> = seen.iter().map(|path| path.parts.join("/")).collect();
    assert_eq!(
        shown,
        vec![
            "tmp/store/a/b/Cargo.toml",
            "tmp/store/b/Cargo.toml",
            "tmp/store/c/d/Cargo.toml",
        ]
    );
    assert!(seen.iter().all(|path| path.root == "/"));
}

#[test]
fn top_level_manifests_beneath_a_directory_of_the_tree() {
    let files = tree(&["Cargo.toml", "a/b/Cargo.toml", "a/b/c/Cargo.toml", "a/d/cargo.toml"]);
    let seen: Vec<String> = top_level_manifests(&at("a"), &files)
        .iter()
        .map(|path| path.parts.join("/"))
        .collect();
    assert_eq!(seen, vec!["a/b/Cargo.toml", "a/d/cargo.toml"]);
}

#[test]
fn top_level_manifests_come_in_the_order_of_the_walk() {
    assert_eq!(
        found(&["c/d/Cargo.toml", "b/c/d/Cargo.toml", "b/Cargo.toml", "a/b/Cargo.toml"]),
        vec!["a/b/Cargo.toml", "b/Cargo.toml", "c/d/Cargo.toml"]
    );
}

#[test]
fn top_level_manifests_of_an_empty_tree() {
    assert!(found(&[]).is_empty());
}

#[test]
fn top_level_manifests_of_a_tree_without_manifests() {
    assert!(found(&["a/readme.md", "a/b/Cargo.lock", "CARGO.TOML"]).is_empty());
}

#[test]
fn a_manifest_at_the_root_hides_all_others() {
    assert_eq!(found(&["a/Cargo.toml", "Cargo.toml", "b/c/cargo.toml"]), vec!["Cargo.toml"]);
}

#[test]
fn both_spellings_in_one_directory_are_top_level() {
    assert_eq!(
        found(&["p/cargo.toml", "p/q/Cargo.toml", "p/Cargo.toml"]),
        vec!["p/Cargo.toml", "p/cargo.toml"]
    );
}

#[test]
fn a_file_named_twice_is_found_once() {
    assert_eq!(found(&["a/Cargo.toml", "a/Cargo.toml"]), vec!["a/Cargo.toml"]);
}

#[test]
fn a_directory_named_like_a_manifest_is_none() {
    assert_eq!(found(&["a/Cargo.toml/Cargo.toml"]), vec!["a/Cargo.toml/Cargo.toml"]);
    assert_eq!(found(&["a/Cargo.toml/x", "a/b/cargo.toml"]), vec!["a/b/cargo.toml"]);
}

#[test]
fn deep_manifests_beside_a_shallow_one() {
    assert_eq!(
        found(&[
            "x/y/z/w/Cargo.toml",
            "x/y/Cargo.toml",
            "x/q/r/Cargo.toml",
            "x/q/r/s/Cargo.toml",
            "x/q/t/cargo.toml",
        ]),
        vec!["x/q/r/Cargo.toml", "x/q/t/cargo.toml", "x/y/Cargo.toml"]
    );
}

#[test]
fn holds_beneath_is_strict() {
    let files = tree(&["a/b/c", "a/d"]);
    assert!(holds_beneath(&files, &at("a")));
    assert!(holds_beneath(&files, &at("a/b")));
    assert!(holds_beneath(&files, &Location::new()));
    assert!(!holds_beneath(&files, &at("a/b/c")));
    assert!(!holds_beneath(&files, &at("a/d")));
    assert!(!holds_beneath(&files, &at("b")));
    assert!(!holds_beneath(&files, &at("a/bb")));
}

#[test]
fn listing_names_each_entry_once() {
    let files = tree(&["a/b/c", "a/b/d", "a/e", "f", "a/b/c"]);
    let mut entries: Vec<(String, EntryKind)> =
        listing(&files, &at("a")).into_iter().map(|entry| (entry.name, entry.kind)).collect();
    entries.sort_by(|x, y| x.0.cmp(&y.0));
    assert_eq!(
        entries,
        vec![("b".to_string(), EntryKind::Dir), ("e".to_string(), EntryKind::File)]
    );
    let mut root: Vec<(String, EntryKind)> = listing(&files, &Location::new())
        .into_iter()
        .map(|entry| (entry.name, entry.kind))
        .collect();
    root.sort_by(|x, y| x.0.cmp(&y.0));
    assert_eq!(root, vec![("a".to_string(), EntryKind::Dir), ("f".to_string(), EntryKind::File)]);
}

#[test]
fn listing_of_what_is_no_directory_is_empty() {
    let files = tree(&["a/b/c"]);
    assert!(listing(&files, &at("a/b/c")).is_empty());
    assert!(listing(&files, &at("x")).is_empty());
}

#[test]
fn a_file_with_files_beneath_is_listed_as_a_directory() {
    let files = tree(&["a/b", "a/b/c"]);
    let entries = listing(&files, &at("a"));
    assert_eq!(entries.len(), 1);
    assert_eq!(entries[0].name, "b");
    assert_eq!(entries[0].kind, EntryKind::Dir);
}
