//! The manifest of a package: the name and the version that it declares.

use toml::de::Error as ParseError;
use vstd::prelude::*;

verus! {

#[verifier::external_type_specification]
#[verifier::external_body]
#[verifier::reject_recursive_types(K)]
#[verifier::reject_recursive_types(V)]
pub struct ExTomlMap<K, V>(toml::map::Map<K, V>);

#[verifier::external_type_specification]
#[verifier::external_body]
pub struct ExTomlValue(toml::Value);

#[verifier::external_type_specification]
#[verifier::external_body]
pub struct ExParseError(ParseError);

/// A value of a TOML document, as far as a manifest is concerned.
pub ghost enum Item {
    /// A string.
    Text(Seq<char>),
    /// A table, by its keys.
    Group(Map<Seq<char>, Item>),
    /// A number, a boolean, a date or an array.
    Other,
}

/// What a table holds: its keys, each with its value.
pub uninterp spec fn table_items(table: toml::Table) -> Map<Seq<char>, Item>;

/// What a value is.
pub uninterp spec fn value_item(value: toml::Value) -> Item;

/// What the `toml` crate makes of a text: the top-level table of the document,
/// or `None` where the text is no TOML document.
pub uninterp spec fn parsed_document(text: Seq<char>) -> Option<Map<Seq<char>, Item>>;

/// Parses a document with `toml::from_str`, as a `toml::Table`. The result is
/// the table that `parsed_document` names, or an error where it names none.
#[verifier::external_body]
fn parse_document(text: &str) -> (res: Result<toml::Table, ParseError>)
    ensures
        match res {
            Ok(table) => parsed_document(text@) == Some(table_items(table)),
            Err(_) => parsed_document(text@) is None,
        },
{
    toml::from_str::<toml::Table>(text)
}

/// Looks a key up with `toml::map::Map::get`: the value under the key, or
/// `None` where the table has no such key.
#[verifier::external_body]
fn table_get<'a>(table: &'a toml::Table, key: &str) -> (res: Option<&'a toml::Value>)
    ensures
        match res {
            Some(value) => table_items(*table).contains_key(key@) && table_items(*table)[key@]
                == value_item(*value),
            None => !table_items(*table).contains_key(key@),
        },
{
    table.get(key)
}

/// `toml::Value::as_str`: the string of a string value, `None` for any other.
#[verifier::external_body]
fn value_as_str<'a>(value: &'a toml::Value) -> (res: Option<&'a str>)
    ensures
        match res {
            Some(text) => value_item(*value) == Item::Text(text@),
            None => !(value_item(*value) is Text),
        },
{
    value.as_str()
}

/// `toml::Value::as_table`: the table of a table value, `None` for any other.
#[verifier::external_body]
fn value_as_table<'a>(value: &'a toml::Value) -> (res: Option<&'a toml::Table>)
    ensures
        match res {
            Some(table) => value_item(*value) == Item::Group(table_items(*table)),
            None => !(value_item(*value) is Group),
        },
{
    value.as_table()
}

/// Why a text is no manifest.
#[derive(Debug)]
pub enum ManifestFault {
    /// The text is no TOML document; the parser's error is carried along.
    Syntax(ParseError),
    /// The document has no table `package`.
    Package,
    /// The table `package` has no string `name`.
    Name,
    /// The table `package` has no string `version`.
    Version,
}

/// The string under `key`, if the table has one there.
pub open spec fn text_at(items: Map<Seq<char>, Item>, key: Seq<char>) -> Option<Seq<char>> {
    if items.contains_key(key) {
        match items[key] {
            Item::Text(text) => Some(text),
            _ => None,
        }
    } else {
        None
    }
}

/// The table under `key`, if the table has one there.
pub open spec fn group_at(items: Map<Seq<char>, Item>, key: Seq<char>) -> Option<
    Map<Seq<char>, Item>,
> {
    if items.contains_key(key) {
        match items[key] {
            Item::Group(group) => Some(group),
            _ => None,
        }
    } else {
        None
    }
}

/// The name and the version that a document declares as a manifest: the
/// strings `name` and `version` of its table `package`.
pub open spec fn declared(document: Map<Seq<char>, Item>) -> Option<(Seq<char>, Seq<char>)> {
    match group_at(document, "package"@) {
        None => None,
        Some(package) => match (text_at(package, "name"@), text_at(package, "version"@)) {
            (Some(name), Some(version)) => Some((name, version)),
            _ => None,
        },
    }
}

/// The first thing that a document lacks as a manifest, if it lacks any:
/// the table `package`, then its `name`, then its `version`.
pub open spec fn lacking(document: Map<Seq<char>, Item>) -> Option<ManifestFault> {
    match group_at(document, "package"@) {
        None => Some(ManifestFault::Package),
        Some(package) => if text_at(package, "name"@) is None {
            Some(ManifestFault::Name)
        } else if text_at(package, "version"@) is None {
            Some(ManifestFault::Version)
        } else {
            None
        },
    }
}

/// The manifest of a package.
#[derive(Debug)]
pub struct Manifest {
    package: Package,
}

#[derive(Debug)]
struct Package {
    name: String,
    version: String,
}

impl Manifest {
    /// The name that the manifest declares.
    pub closed spec fn spec_crate_name(&self) -> Seq<char> {
        self.package.name@
    }

    /// The version that the manifest declares.
    pub closed spec fn spec_crate_version(&self) -> Seq<char> {
        self.package.version@
    }

    /// The manifest that a parsed document holds.
    ///
    /// The document must have a table `package` with the strings `name` and
    /// `version`; what else it holds is ignored.
    pub fn from_table(document: &toml::Table) -> (res: Result<Manifest, ManifestFault>)
        ensures
            match res {
                Ok(manifest) => declared(table_items(*document)) == Some(
                    (manifest.spec_crate_name(), manifest.spec_crate_version()),
                ),
                Err(fault) => lacking(table_items(*document)) == Some(fault) && !(fault is Syntax),
            },
    {
        let package = match table_get(document, "package") {
            None => {
                return Err(ManifestFault::Package);
            },
            Some(value) => match value_as_table(value) {
                None => {
                    return Err(ManifestFault::Package);
                },
                Some(package) => package,
            },
        };
        let name = match table_get(package, "name") {
            None => {
                return Err(ManifestFault::Name);
            },
            Some(value) => match value_as_str(value) {
                None => {
                    return Err(ManifestFault::Name);
                },
                Some(name) => name,
            },
        };
        let version = match table_get(package, "version") {
            None => {
                return Err(ManifestFault::Version);
            },
            Some(value) => match value_as_str(value) {
                None => {
                    return Err(ManifestFault::Version);
                },
                Some(version) => version,
            },
        };
        Ok(Manifest { package: Package { name: name.to_owned(), version: version.to_owned() } })
    }

    /// The manifest that a text holds.
    ///
    /// A text that is no TOML document is refused with the parser's error, a
    /// document that lacks something with what it lacks first.
    pub fn parse(text: &str) -> (res: Result<Manifest, ManifestFault>)
        ensures
            match res {
                Ok(manifest) => parsed_document(text@) matches Some(document) && declared(document)
                    == Some((manifest.spec_crate_name(), manifest.spec_crate_version())),
                Err(ManifestFault::Syntax(_)) => parsed_document(text@) is None,
                Err(fault) => parsed_document(text@) matches Some(document) && lacking(document)
                    == Some(fault),
            },
    {
        match parse_document(text) {
            Err(error) => Err(ManifestFault::Syntax(error)),
            Ok(document) => Manifest::from_table(&document),
        }
    }

    /// The name that the manifest declares.
    pub fn crate_name(&self) -> (res: &str)
        ensures
            res@ == self.spec_crate_name(),
    {
        self.package.name.as_str()
    }

    /// The version that the manifest declares.
    pub fn crate_version(&self) -> (res: &str)
        ensures
            res@ == self.spec_crate_version(),
    {
        self.package.version.as_str()
    }
}

/// A document declares a name and a version exactly when it lacks nothing.
pub proof fn lemma_declared_or_lacking(document: Map<Seq<char>, Item>)
    ensures
        declared(document) is Some <==> lacking(document) is None,
{
}

} // verus!
