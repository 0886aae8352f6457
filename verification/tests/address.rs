use librarian::address::{shard, target};
use librarian::Error;

fn joined(parts: &[String]) -> String {
    parts.join("/")
}

#[test]
fn shard_of_one_character() {
    assert_eq!(joined(&shard("a").unwrap().parts), "1/a");
}

#[test]
fn shard_of_two_characters() {
    assert_eq!(joined(&shard("ab").unwrap().parts), "2/ab");
}

#[test]
fn shard_of_three_characters() {
    assert_eq!(joined(&shard("abc").unwrap().parts), "3/a/abc");
}

#[test]
fn shard_of_four_characters() {
    assert_eq!(joined(&shard("abcd").unwrap().parts), "ab/cd/abcd");
}

#[test]
fn shard_of_a_long_name() {
    assert_eq!(joined(&shard("serde_json").unwrap().parts), "se/rd/serde_json");
}

#[test]
fn shard_keeps_case() {
    assert_eq!(joined(&shard("Inflector").unwrap().parts), "In/fl/Inflector");
}

#[test]
fn shard_counts_characters() {
    assert_eq!(joined(&shard("é").unwrap().parts), "1/é");
    assert_eq!(joined(&shard("étoile").unwrap().parts), "ét/oi/étoile");
}

#[test]
fn shard_is_stable_across_calls() {
    let first = shard("tokio").unwrap();
    let second = shard("tokio").unwrap();
    assert_eq!(first.parts, second.parts);
}

#[test]
fn shard_refuses_the_empty_name() {
    match shard("") {
        Err(Error::InvalidCrateName(name)) => assert_eq!(name, ""),
        other => panic!("unexpected: {:?}", other),
    }
}

#[test]
fn target_ends_with_the_version() {
    assert_eq!(joined(&target("a", "0.1.0").unwrap().parts), "1/a/0.1.0");
    assert_eq!(joined(&target("ab", "0.1.0").unwrap().parts), "2/ab/0.1.0");
    assert_eq!(joined(&target("abc", "0.1.0").unwrap().parts), "3/a/abc/0.1.0");
    assert_eq!(joined(&target("serde", "1.0.229").unwrap().parts), "se/rd/serde/1.0.229");
}

#[test]
fn target_refuses_the_empty_name() {
    assert!(matches!(target("", "1.0.0"), Err(Error::InvalidCrateName(_))));
}

#[test]
fn target_refuses_the_empty_version() {
    match target("serde", "") {
        Err(Error::InvalidCrateVersion(version)) => assert_eq!(version, ""),
        other => panic!("unexpected: {:?}", other),
    }
}

#[test]
fn target_names_the_name_before_the_version() {
    assert!(matches!(target("", ""), Err(Error::InvalidCrateName(_))));
}
