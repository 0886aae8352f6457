use librarian::manifest::{Manifest, ManifestFault};

fn package(name: Option<toml::Value>, version: Option<toml::Value>) -> toml::Table {
    let mut package = toml::Table::new();
    if let Some(name) = name {
        package.insert("name".to_string(), name);
    }
    if let Some(version) = version {
        package.insert("version".to_string(), version);
    }
    let mut document = toml::Table::new();
    document.insert("package".to_string(), toml::Value::Table(package));
    document
}

fn text(value: &str) -> Option<toml::Value> {
    Some(toml::Value::String(value.to_string()))
}

#[test]
fn manifest_from_a_table() {
    let manifest = Manifest::from_table(&package(text("foo"), text("0.0.0"))).unwrap();
    assert_eq!(manifest.crate_name(), "foo");
    assert_eq!(manifest.crate_version(), "0.0.0");
}

#[test]
fn manifest_ignores_other_keys() {
    let mut document = package(text("foo"), text("1.2.3"));
    document.insert("dependencies".to_string(), toml::Value::Table(toml::Table::new()));
    document.insert("name".to_string(), toml::Value::String("other".to_string()));
    let manifest = Manifest::from_table(&document).unwrap();
    assert_eq!(manifest.crate_name(), "foo");
    assert_eq!(manifest.crate_version(), "1.2.3");
}

#[test]
fn manifest_without_package() {
    assert!(matches!(Manifest::from_table(&toml::Table::new()), Err(ManifestFault::Package)));
}

#[test]
fn manifest_with_a_package_that_is_no_table() {
    let mut document = toml::Table::new();
    document.insert("package".to_string(), toml::Value::String("foo".to_string()));
    assert!(matches!(Manifest::from_table(&document), Err(ManifestFault::Package)));
}

#[test]
fn manifest_without_name() {
    assert!(matches!(
        Manifest::from_table(&package(None, text("0.0.0"))),
        Err(ManifestFault::Name)
    ));
}

#[test]
fn manifest_with_a_name_that_is_no_string() {
    assert!(matches!(
        Manifest::from_table(&package(Some(toml::Value::Integer(1)), text("0.0.0"))),
        Err(ManifestFault::Name)
    ));
}

#[test]
fn manifest_without_version() {
    assert!(matches!(
        Manifest::from_table(&package(text("foo"), None)),
        Err(ManifestFault::Version)
    ));
}

#[test]
fn manifest_with_a_version_that_is_no_string() {
    assert!(matches!(
        Manifest::from_table(&package(text("foo"), Some(toml::Value::Boolean(true)))),
        Err(ManifestFault::Version)
    ));
}

#[test]
fn manifest_names_the_name_before_the_version() {
    assert!(matches!(Manifest::from_table(&package(None, None)), Err(ManifestFault::Name)));
}

#[test]
fn parse_reads_a_manifest() {
    let manifest =
        Manifest::parse("[package]\nname = \"foo\"\nversion = \"0.0.0\"\n").unwrap();
    assert_eq!(manifest.crate_name(), "foo");
    assert_eq!(manifest.crate_version(), "0.0.0");
}

#[test]
fn parse_reads_an_inline_table() {
    let manifest =
        Manifest::parse("package = { name = \"bar\", version = \"2.0.0-rc.1\" }\n").unwrap();
    assert_eq!(manifest.crate_name(), "bar");
    assert_eq!(manifest.crate_version(), "2.0.0-rc.1");
}

#[test]
fn parse_refuses_what_is_no_toml() {
    assert!(matches!(Manifest::parse("[package\nname = "), Err(ManifestFault::Syntax(_))));
}

#[test]
fn parse_refuses_a_document_without_package() {
    assert!(matches!(Manifest::parse(""), Err(ManifestFault::Package)));
    assert!(matches!(Manifest::parse("[workspace]\nmembers = []\n"), Err(ManifestFault::Package)));
}

#[test]
fn parse_refuses_a_package_without_version() {
    assert!(matches!(
        Manifest::parse("[package]\nname = \"foo\"\n"),
        Err(ManifestFault::Version)
    ));
}

#[test]
fn parse_refuses_a_version_that_is_a_table() {
    assert!(matches!(
        Manifest::parse("[package]\nname = \"foo\"\nversion = { workspace = true }\n"),
        Err(ManifestFault::Version)
    ));
}
