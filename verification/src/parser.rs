//! Loading files: the error type, and the secrets table read from the text of
//! a secrets file. Reading files, and the parse of request files and
//! collection configurations into their models, happen at the program's edge.

use vstd::prelude::*;

use crate::string_map::{distinct_keys, pairs_to_map, StringMap};
use crate::text::concat;

verus! {

/// The error type of I/O operations.
#[verifier::external_type_specification]
#[verifier::external_body]
pub struct ExIoError(std::io::Error);

/// The error type of TOML deserialization.
#[verifier::external_type_specification]
#[verifier::external_body]
pub struct ExTomlError(toml::de::Error);

/// Why a file could not be loaded.
#[derive(Debug)]
pub enum ParseError {
    /// The file could not be read.
    Io(std::io::Error),
    /// The file is not TOML of the expected shape.
    Toml(toml::de::Error),
}

/// The table of string values that the TOML text `text` holds, if it is a
/// TOML document whose every key has a string value.
pub uninterp spec fn toml_string_table(text: Seq<char>) -> Option<Map<Seq<char>, Seq<char>>>;

/// Deserializes `text` with `toml::from_str` into a
/// `HashMap<String, String>` and lists its entries (in no particular order).
/// The contract claims that the entries have distinct keys and that the table
/// they make up, or the failure, is `toml_string_table` of the text.
#[verifier::external_body]
fn parse_string_table(text: &str) -> (r: Result<Vec<(String, String)>, toml::de::Error>)
    ensures
        match r {
            Ok(v) => distinct_keys(v@) && toml_string_table(text@) == Some(pairs_to_map(v@)),
            Err(_) => toml_string_table(text@) is None,
        },
{
    match toml::from_str::<std::collections::HashMap<String, String>>(text) {
        Ok(m) => Ok(m.into_iter().collect()),
        Err(e) => Err(e),
    }
}

/// The map of a list of pairs; a later pair overrides an earlier one.
pub fn map_from_pairs(v: Vec<(String, String)>) -> (m: StringMap)
    ensures
        m@ == pairs_to_map(v@),
{
    let mut m = StringMap::new();
    let mut i: usize = 0;
    assert(pairs_to_map(v@.take(0)) =~= Map::<Seq<char>, Seq<char>>::empty());
    while i < v.len()
        invariant
            i <= v.len(),
            m@ == pairs_to_map(v@.take(i as int)),
        decreases v.len() - i,
    {
        m.insert(v[i].0.clone(), v[i].1.clone());
        assert(v@.take(i + 1).drop_last() =~= v@.take(i as int));
        i = i + 1;
    }
    assert(v@.take(v.len() as int) =~= v@);
    m
}

/// The secrets table of a parsed secrets file: the table of its entries, or
/// the TOML error.
pub fn secrets_from_entries(parsed: Result<Vec<(String, String)>, toml::de::Error>) -> (r: Result<
    StringMap,
    ParseError,
>)
    ensures
        match parsed {
            Ok(v) => r matches Ok(m) && m@ == pairs_to_map(v@),
            Err(e) => r == Err::<StringMap, ParseError>(ParseError::Toml(e)),
        },
{
    match parsed {
        Ok(v) => Ok(map_from_pairs(v)),
        Err(e) => Err(ParseError::Toml(e)),
    }
}

/// Reads the secrets table from the text of a secrets file: a TOML document
/// of string values.
pub fn load_secrets(content: &str) -> (r: Result<StringMap, ParseError>)
    ensures
        match toml_string_table(content@) {
            Some(t) => r matches Ok(m) && m@ == t,
            None => r matches Err(ParseError::Toml(_)),
        },
{
    secrets_from_entries(parse_string_table(content))
}

/// The display text of an I/O error (its `Display` impl). Nothing is claimed
/// of it: it comes from the system's error messages.
#[verifier::external_body]
fn io_error_text(e: &std::io::Error) -> String {
    e.to_string()
}

/// The text that a TOML deserialization error displays: a function of the
/// error value alone.
pub uninterp spec fn toml_error_display(e: toml::de::Error) -> Seq<char>;

/// The display text of a TOML error (`<toml::de::Error as Display>`). The
/// contract claims only that it is `toml_error_display` of the error.
#[verifier::external_body]
fn toml_error_text(e: &toml::de::Error) -> (r: String)
    ensures
        r@ == toml_error_display(*e),
{
    e.to_string()
}

impl ParseError {
    /// The message of this error.
    pub fn message(&self) -> (r: String)
        ensures
            match self {
                ParseError::Io(_) => exists|t: Seq<char>| r@ == "IO error: "@ + t,
                ParseError::Toml(t) => r@ == "TOML parsing error: "@ + toml_error_display(*t),
            },
    {
        match self {
            ParseError::Io(e) => {
                let t = io_error_text(e);
                concat("IO error: ", t.as_str())
            },
            ParseError::Toml(e) => {
                let t = toml_error_text(e);
                concat("TOML parsing error: ", t.as_str())
            },
        }
    }
}

impl From<std::io::Error> for ParseError {
    fn from(err: std::io::Error) -> (r: ParseError) {
        ParseError::Io(err)
    }
}

impl vstd::std_specs::convert::FromSpecImpl<std::io::Error> for ParseError {
    open spec fn obeys_from_spec() -> bool {
        true
    }

    open spec fn from_spec(v: std::io::Error) -> ParseError {
        ParseError::Io(v)
    }
}

impl From<toml::de::Error> for ParseError {
    fn from(err: toml::de::Error) -> (r: ParseError) {
        ParseError::Toml(err)
    }
}

impl vstd::std_specs::convert::FromSpecImpl<toml::de::Error> for ParseError {
    open spec fn obeys_from_spec() -> bool {
        true
    }

    open spec fn from_spec(v: toml::de::Error) -> ParseError {
        ParseError::Toml(v)
    }
}

} // verus!
