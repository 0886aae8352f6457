use librarian::corpus::{unpacked_name, Corpus, Error, Outcome, Stage};
use librarian::Location;

fn at(path: &str) -> Location {
    Location::from_parts(
        path.split('/').filter(|part| !part.is_empty()).map(|part| part.to_string()).collect(),
    )
}

fn shown(path: &Location) -> String {
    path.parts.join("/")
}

#[test]
fn corpus_path_lies_under_the_root() {
    let corpus = Corpus::new(at("corpus"));
    assert_eq!(shown(corpus.root()), "corpus");
    assert_eq!(shown(&corpus.path("serde", "1.0.0").unwrap()), "corpus/se/rd/serde/1.0.0");
    assert_eq!(shown(&corpus.path("syn", "2.0.0").unwrap()), "corpus/3/s/syn/2.0.0");
}

#[test]
fn corpus_path_refuses_the_empty_name() {
    let corpus = Corpus::new(at("corpus"));
    assert!(matches!(
        corpus.path("", "1.0.0"),
        Err(Error::Vault(librarian::Error::InvalidCrateName(_)))
    ));
}

#[test]
fn corpus_path_refuses_the_empty_version() {
    let corpus = Corpus::new(at("corpus"));
    assert!(matches!(
        corpus.path("serde", ""),
        Err(Error::Vault(librarian::Error::InvalidCrateVersion(_)))
    ));
}

#[test]
fn unpacked_name_is_name_hyphen_version() {
    assert_eq!(unpacked_name("serde", "1.0.229"), "serde-1.0.229");
    assert_eq!(unpacked_name("a", ""), "a-");
}

#[test]
fn populate_refuses_the_empty_name_and_version() {
    let corpus = Corpus::new(at("corpus"));
    assert!(matches!(
        corpus.populate("", "1.0.0"),
        Err(Error::Vault(librarian::Error::InvalidCrateName(_)))
    ));
    assert!(matches!(
        corpus.populate("serde", ""),
        Err(Error::Vault(librarian::Error::InvalidCrateVersion(_)))
    ));
}

#[test]
fn populate_of_an_absent_target_takes_each_step_once() {
    let corpus = Corpus::new(at("corpus"));
    let mut population = corpus.populate("serde", "1.0.0").unwrap();
    assert_eq!(population.stage(), Stage::Inspect);
    assert_eq!(shown(population.target()), "corpus/se/rd/serde/1.0.0");
    assert_eq!(population.resume(Outcome::IsMissing), Stage::Prepare);
    assert_eq!(population.resume(Outcome::Resolved(at("/abs/corpus/se/rd/serde"))), Stage::Fetch);
    assert_eq!(shown(population.target()), "abs/corpus/se/rd/serde/1.0.0");
    assert_eq!(population.name(), "serde");
    assert_eq!(population.version(), "1.0.0");
    assert_eq!(population.resume(Outcome::Done), Stage::Extract);
    assert_eq!(population.resume(Outcome::Done), Stage::Rename);
    assert_eq!(population.unpacked_name(), "serde-1.0.0");
    assert_eq!(population.resume(Outcome::Done), Stage::Present);
    assert_eq!(population.resume(Outcome::Done), Stage::Present);
    match population.finish() {
        Some(Ok(path)) => assert_eq!(shown(&path), "abs/corpus/se/rd/serde/1.0.0"),
        other => panic!("unexpected: {:?}", other),
    }
}

#[test]
fn populate_takes_the_resolved_root() {
    let corpus = Corpus::new(at("corpus"));
    let mut population = corpus.populate("serde", "1.0.0").unwrap();
    assert_eq!(population.target().root, "");
    population.resume(Outcome::IsMissing);
    let above = Location::rooted(
        "/".to_string(),
        vec!["abs".to_string(), "corpus".to_string(), "se".to_string(), "rd".to_string(), "serde".to_string()],
    );
    assert_eq!(population.resume(Outcome::Resolved(above)), Stage::Fetch);
    assert_eq!(population.target().root, "/");
    assert_eq!(shown(population.target()), "abs/corpus/se/rd/serde/1.0.0");
}

#[test]
fn populate_of_a_present_target_does_nothing() {
    let corpus = Corpus::new(at("corpus"));
    let mut population = corpus.populate("serde", "1.0.0").unwrap();
    assert_eq!(population.resume(Outcome::IsDirectory), Stage::Present);
    assert_eq!(population.resume(Outcome::Done), Stage::Present);
    assert_eq!(population.resume(Outcome::IsMissing), Stage::Present);
    match population.finish() {
        Some(Ok(path)) => assert_eq!(shown(&path), "corpus/se/rd/serde/1.0.0"),
        other => panic!("unexpected: {:?}", other),
    }
}

#[test]
fn populate_of_a_target_that_is_a_file_fails() {
    let corpus = Corpus::new(at("corpus"));
    let mut population = corpus.populate("serde", "1.0.0").unwrap();
    assert_eq!(population.resume(Outcome::IsNotDirectory), Stage::Failed);
    assert_eq!(population.resume(Outcome::Done), Stage::Failed);
    match population.finish() {
        Some(Err(Error::NotADirectory(path))) => {
            assert_eq!(shown(&path), "corpus/se/rd/serde/1.0.0")
        }
        other => panic!("unexpected: {:?}", other),
    }
}

#[test]
fn populate_fails_where_the_target_cannot_be_inspected() {
    let corpus = Corpus::new(at("corpus"));
    let mut population = corpus.populate("serde", "1.0.0").unwrap();
    assert_eq!(population.resume(Outcome::Failed("denied".to_string())), Stage::Failed);
    match population.finish() {
        Some(Err(Error::Io(why))) => assert_eq!(why, "denied"),
        other => panic!("unexpected: {:?}", other),
    }
}

#[test]
fn populate_fails_where_the_fetch_fails() {
    let corpus = Corpus::new(at("corpus"));
    let mut population = corpus.populate("serde", "1.0.0").unwrap();
    population.resume(Outcome::IsMissing);
    population.resume(Outcome::Resolved(at("corpus/se/rd/serde")));
    assert_eq!(population.resume(Outcome::Failed("timeout".to_string())), Stage::Failed);
    assert_eq!(population.resume(Outcome::Done), Stage::Failed);
    match population.finish() {
        Some(Err(Error::Reqwest(why))) => assert_eq!(why, "timeout"),
        other => panic!("unexpected: {:?}", other),
    }
}

#[test]
fn populate_fails_where_the_unpacking_fails() {
    let corpus = Corpus::new(at("corpus"));
    let mut population = corpus.populate("serde", "1.0.0").unwrap();
    population.resume(Outcome::IsMissing);
    population.resume(Outcome::Resolved(at("corpus/se/rd/serde")));
    population.resume(Outcome::Done);
    assert_eq!(population.resume(Outcome::Failed("bad archive".to_string())), Stage::Failed);
    match population.finish() {
        Some(Err(Error::Io(why))) => assert_eq!(why, "bad archive"),
        other => panic!("unexpected: {:?}", other),
    }
}

#[test]
fn populate_after_a_failure_starts_from_the_beginning() {
    let corpus = Corpus::new(at("corpus"));
    let mut failed = corpus.populate("serde", "1.0.0").unwrap();
    failed.resume(Outcome::IsMissing);
    failed.resume(Outcome::Resolved(at("corpus/se/rd/serde")));
    assert_eq!(failed.resume(Outcome::Failed("timeout".to_string())), Stage::Failed);
    let mut again = corpus.populate("serde", "1.0.0").unwrap();
    assert_eq!(again.stage(), Stage::Inspect);
    assert_eq!(again.resume(Outcome::IsMissing), Stage::Prepare);
    assert_eq!(again.resume(Outcome::Resolved(at("corpus/se/rd/serde"))), Stage::Fetch);
}

#[test]
fn populate_fails_where_the_preparing_or_the_rename_fails() {
    let corpus = Corpus::new(at("corpus"));
    let mut population = corpus.populate("serde", "1.0.0").unwrap();
    population.resume(Outcome::IsMissing);
    assert_eq!(population.resume(Outcome::Failed("read-only".to_string())), Stage::Failed);
    assert!(matches!(population.finish(), Some(Err(Error::Io(_)))));

    let mut population = corpus.populate("serde", "1.0.0").unwrap();
    population.resume(Outcome::IsMissing);
    population.resume(Outcome::Resolved(at("corpus/se/rd/serde")));
    population.resume(Outcome::Done);
    population.resume(Outcome::Done);
    assert_eq!(population.resume(Outcome::Failed("busy".to_string())), Stage::Failed);
    assert!(matches!(population.finish(), Some(Err(Error::Io(_)))));
}

#[test]
fn an_outcome_that_answers_nothing_changes_nothing() {
    let corpus = Corpus::new(at("corpus"));
    let mut population = corpus.populate("serde", "1.0.0").unwrap();
    assert_eq!(population.resume(Outcome::Done), Stage::Inspect);
    assert_eq!(population.resume(Outcome::Resolved(at("x"))), Stage::Inspect);
    population.resume(Outcome::IsMissing);
    assert_eq!(population.resume(Outcome::IsDirectory), Stage::Prepare);
    assert_eq!(population.resume(Outcome::Done), Stage::Prepare);
    assert_eq!(shown(population.target()), "corpus/se/rd/serde/1.0.0");
    assert!(population.finish().is_none());
}
