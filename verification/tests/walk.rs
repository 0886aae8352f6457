use librarian::scan::{comes_before, sort_for_visit, Pending, Scanner, Step};
use librarian::walk::{
    is_manifest, is_manifest_name, manifest_parent, Entry, EntryKind, PrefixSet,
};
use librarian::{Error, Location};

fn at(path: &str) -> Location {
    Location::from_parts(
        path.split('/').filter(|part| !part.is_empty()).map(|part| part.to_string()).collect(),
    )
}

fn shown(path: &Location) -> String {
    path.parts.join("/")
}

/// The listing of `dir` in a tree that holds exactly the files `files`.
fn listing(files: &[&str], dir: &Location) -> Vec<Entry> {
    let mut entries: Vec<Entry> = Vec::new();
    for file in files {
        let file = at(file);
        if file.len() > dir.len() && file.starts_with(dir) {
            let name = file.parts[dir.len()].clone();
            let kind = if file.len() == dir.len() + 1 { EntryKind::File } else { EntryKind::Dir };
            if !entries.iter().any(|entry| entry.name == name) {
                entries.push(Entry { name, kind });
            }
        }
    }
    entries
}

/// The manifests that a scan of the tree with the files `files` reports, and
/// the directories that it lists, each in the order of the scan.
fn scan(files: &[&str]) -> (Vec<String>, Vec<String>) {
    let mut scanner = Scanner::new(Location::new(), EntryKind::Dir);
    let mut manifests = Vec::new();
    let mut listed = Vec::new();
    loop {
        match scanner.next() {
            Step::Done => break,
            Step::Manifest(path) => manifests.push(shown(&path)),
            Step::Failed(failure) => panic!("unexpected: {:?}", failure),
            Step::List(dir) => {
                listed.push(shown(&dir));
                scanner.supply(listing(files, &dir), vec![]);
            }
        }
    }
    (manifests, listed)
}

#[test]
fn scan_finds_the_top_level_manifests() {
    let files = ["a/b/Cargo.toml", "b/Cargo.toml", "b/c/d/Cargo.toml", "c/d/Cargo.toml"];
    let (mut seen, _) = scan(&files);
    seen.sort();
    assert_eq!(seen, vec!["a/b/Cargo.toml", "b/Cargo.toml", "c/d/Cargo.toml"]);
}

#[test]
fn scan_reports_in_the_order_of_the_walk() {
    let files = ["c/d/Cargo.toml", "b/c/d/Cargo.toml", "b/Cargo.toml", "a/b/Cargo.toml"];
    let (seen, _) = scan(&files);
    assert_eq!(seen, vec!["a/b/Cargo.toml", "b/Cargo.toml", "c/d/Cargo.toml"]);
}

#[test]
fn scan_does_not_list_beneath_a_manifest() {
    let files = ["b/Cargo.toml", "b/c/d/Cargo.toml", "b/src/lib.rs"];
    let (seen, listed) = scan(&files);
    assert_eq!(seen, vec!["b/Cargo.toml"]);
    assert_eq!(listed, vec!["", "b"]);
}

#[test]
fn scan_visits_manifests_before_directories() {
    let files = ["p/aaa/Cargo.toml", "p/cargo.toml"];
    let (seen, listed) = scan(&files);
    assert_eq!(seen, vec!["p/cargo.toml"]);
    assert_eq!(listed, vec!["", "p"]);
}

#[test]
fn scan_reports_both_spellings_in_one_directory() {
    let files = ["p/cargo.toml", "p/Cargo.toml", "p/q/Cargo.toml"];
    let (seen, _) = scan(&files);
    assert_eq!(seen, vec!["p/Cargo.toml", "p/cargo.toml"]);
}

#[test]
fn scan_of_a_manifest_at_the_root_directory() {
    let files = ["Cargo.toml", "a/Cargo.toml"];
    let (seen, listed) = scan(&files);
    assert_eq!(seen, vec!["Cargo.toml"]);
    assert_eq!(listed, vec![""]);
}

#[test]
fn scan_ignores_other_files() {
    let files = ["a/readme.md", "a/CARGO.TOML", "a/b/Cargo.lock"];
    let (seen, listed) = scan(&files);
    assert!(seen.is_empty());
    assert_eq!(listed, vec!["", "a", "a/b"]);
}

#[test]
fn scan_of_an_empty_tree() {
    let (seen, listed) = scan(&[]);
    assert!(seen.is_empty());
    assert_eq!(listed, vec![""]);
}

#[test]
fn scan_ignores_what_is_neither_file_nor_directory() {
    let mut scanner = Scanner::new(at("root"), EntryKind::Dir);
    assert!(matches!(scanner.next(), Step::List(_)));
    scanner.supply(vec![
        Entry { name: "Cargo.toml".to_string(), kind: EntryKind::Other },
        Entry { name: "link".to_string(), kind: EntryKind::Other },
    ], vec![]);
    assert!(matches!(scanner.next(), Step::Done));
}

#[test]
fn scan_does_not_take_a_directory_for_a_manifest() {
    let mut scanner = Scanner::new(at("root"), EntryKind::Dir);
    assert!(matches!(scanner.next(), Step::List(_)));
    scanner.supply(vec![Entry { name: "Cargo.toml".to_string(), kind: EntryKind::Dir }], vec![]);
    match scanner.next() {
        Step::List(dir) => assert_eq!(shown(&dir), "root/Cargo.toml"),
        other => panic!("unexpected: {:?}", other),
    }
}

#[test]
fn scan_that_starts_at_a_manifest() {
    let mut scanner = Scanner::new(at("some/Cargo.toml"), EntryKind::File);
    match scanner.next() {
        Step::Manifest(path) => assert_eq!(shown(&path), "some/Cargo.toml"),
        other => panic!("unexpected: {:?}", other),
    }
    assert!(matches!(scanner.next(), Step::Done));
}

#[test]
fn supply_without_a_listing_asked_for_changes_nothing() {
    let mut scanner = Scanner::new(at("root/file"), EntryKind::File);
    scanner.supply(vec![Entry { name: "Cargo.toml".to_string(), kind: EntryKind::File }], vec![]);
    assert!(matches!(scanner.next(), Step::Done));
}

#[test]
fn a_listing_not_supplied_counts_as_empty() {
    let mut scanner = Scanner::new(at("root"), EntryKind::Dir);
    assert!(matches!(scanner.next(), Step::List(_)));
    assert!(matches!(scanner.next(), Step::Done));
}

#[test]
fn failures_of_listing_are_said_first_and_in_order() {
    let mut scanner = Scanner::new(at("root"), EntryKind::Dir);
    assert!(matches!(scanner.next(), Step::List(_)));
    scanner.supply(
        vec![Entry { name: "Cargo.toml".to_string(), kind: EntryKind::File }],
        vec!["first".to_string(), "second".to_string()],
    );
    match scanner.next() {
        Step::Failed(Error::WalkDir(why)) => assert_eq!(why, "first"),
        other => panic!("unexpected: {:?}", other),
    }
    match scanner.next() {
        Step::Failed(Error::WalkDir(why)) => assert_eq!(why, "second"),
        other => panic!("unexpected: {:?}", other),
    }
    match scanner.next() {
        Step::Manifest(path) => assert_eq!(shown(&path), "root/Cargo.toml"),
        other => panic!("unexpected: {:?}", other),
    }
    assert!(matches!(scanner.next(), Step::Done));
}

#[test]
fn a_directory_that_cannot_be_listed_does_not_end_the_scan() {
    let mut scanner = Scanner::new(at("root"), EntryKind::Dir);
    assert!(matches!(scanner.next(), Step::List(_)));
    scanner.supply(
        vec![
            Entry { name: "a".to_string(), kind: EntryKind::Dir },
            Entry { name: "b".to_string(), kind: EntryKind::Dir },
        ],
        vec![],
    );
    match scanner.next() {
        Step::List(dir) => assert_eq!(shown(&dir), "root/a"),
        other => panic!("unexpected: {:?}", other),
    }
    scanner.supply(vec![], vec!["denied".to_string()]);
    assert!(matches!(scanner.next(), Step::Failed(Error::WalkDir(_))));
    match scanner.next() {
        Step::List(dir) => assert_eq!(shown(&dir), "root/b"),
        other => panic!("unexpected: {:?}", other),
    }
    scanner.supply(vec![Entry { name: "cargo.toml".to_string(), kind: EntryKind::File }], vec![]);
    match scanner.next() {
        Step::Manifest(path) => assert_eq!(shown(&path), "root/b/cargo.toml"),
        other => panic!("unexpected: {:?}", other),
    }
    assert!(matches!(scanner.next(), Step::Done));
}

#[test]
fn failures_without_a_listing_asked_for_are_dropped() {
    let mut scanner = Scanner::new(at("root/file"), EntryKind::File);
    scanner.supply(vec![], vec!["stray".to_string()]);
    assert!(matches!(scanner.next(), Step::Done));
}

#[test]
fn manifest_names() {
    assert!(is_manifest_name("Cargo.toml"));
    assert!(is_manifest_name("cargo.toml"));
}

#[test]
fn other_names_are_no_manifest_names() {
    for name in
        ["CARGO.TOML", "Cargo.Toml", "cargo.Toml", "cARGO.TOML", "Cargo.toml ", "Cargo.lock", "", "Cargo", "xCargo.toml"]
    {
        assert!(!is_manifest_name(name), "{name}");
    }
}

#[test]
fn a_manifest_is_a_regular_file() {
    assert!(is_manifest(EntryKind::File, &at("a/Cargo.toml")));
    assert!(is_manifest(EntryKind::File, &at("cargo.toml")));
    assert!(!is_manifest(EntryKind::Dir, &at("a/Cargo.toml")));
    assert!(!is_manifest(EntryKind::Other, &at("a/Cargo.toml")));
    assert!(!is_manifest(EntryKind::File, &at("a/Cargo.toml/x")));
    assert!(!is_manifest(EntryKind::File, &Location::new()));
}

#[test]
fn manifest_parent_is_the_directory() {
    assert_eq!(shown(&manifest_parent(&at("a/b/Cargo.toml")).unwrap()), "a/b");
    assert_eq!(manifest_parent(&at("Cargo.toml")).unwrap().len(), 0);
}

#[test]
fn manifest_parent_keeps_the_root() {
    let manifest = Location::rooted(
        "/".to_string(),
        vec!["r".to_string(), "b".to_string(), "Cargo.toml".to_string()],
    );
    let parent = manifest_parent(&manifest).unwrap();
    assert_eq!(parent.root, "/");
    assert_eq!(parent.parts, vec!["r", "b"]);
}

#[test]
fn manifest_parent_of_the_root() {
    match manifest_parent(&Location::rooted("/".to_string(), Vec::new())) {
        Err(Error::ManifestAncestry(path)) => {
            assert_eq!(path.root, "/");
            assert!(path.parts.is_empty());
        }
        other => panic!("unexpected: {:?}", other),
    }
}

#[test]
fn a_bare_root_is_no_manifest() {
    assert!(!is_manifest(EntryKind::File, &Location::rooted("Cargo.toml".to_string(), Vec::new())));
}

#[test]
fn manifest_parent_of_nothing() {
    assert!(matches!(manifest_parent(&Location::new()), Err(Error::ManifestAncestry(_))));
}

#[test]
fn prefix_set_contains_what_lies_beneath() {
    let mut seen = PrefixSet::new();
    assert!(!seen.contains(&at("a/b")));
    seen.insert(&at("a/b"));
    assert!(seen.contains(&at("a/b")));
    assert!(seen.contains(&at("a/b/c/d")));
    assert!(!seen.contains(&at("a")));
    assert!(!seen.contains(&at("a/bc")));
    assert!(!seen.contains(&at("b/a/b")));
    seen.insert(&at("c"));
    assert!(seen.contains(&at("c/x")));
    assert!(seen.contains(&at("a/b/x")));
}

fn pending(path: &str, kind: EntryKind) -> Pending {
    Pending { path: at(path), kind }
}

#[test]
fn manifests_come_before_everything_else() {
    let manifest = pending("d/cargo.toml", EntryKind::File);
    let early = pending("d/aaa", EntryKind::Dir);
    assert!(comes_before(&manifest, &early));
    assert!(!comes_before(&early, &manifest));
}

#[test]
fn names_decide_among_the_rest() {
    let a = pending("d/a", EntryKind::Dir);
    let b = pending("d/b", EntryKind::File);
    assert!(comes_before(&a, &b));
    assert!(!comes_before(&b, &a));
    assert!(!comes_before(&a, &a));
    assert!(comes_before(&pending("d/ab", EntryKind::File), &pending("d/abc", EntryKind::File)));
    assert!(comes_before(&pending("d/Z", EntryKind::File), &pending("d/a", EntryKind::File)));
}

#[test]
fn sort_for_visit_orders_a_listing() {
    let sorted = sort_for_visit(vec![
        pending("d/zz", EntryKind::Dir),
        pending("d/cargo.toml", EntryKind::File),
        pending("d/aa", EntryKind::File),
        pending("d/Cargo.toml", EntryKind::File),
        pending("d/mm", EntryKind::Other),
    ]);
    let names: Vec<String> = sorted.iter().map(|entry| shown(&entry.path)).collect();
    assert_eq!(names, vec!["d/Cargo.toml", "d/cargo.toml", "d/aa", "d/mm", "d/zz"]);
}
