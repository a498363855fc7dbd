//! File-format detection and the byte-level format parsers.
//!
//! The parsers themselves are outside collaborators (serde_json, serde_yaml,
//! toml); each is reached through one trusted wrapper whose result is a named
//! function of the text alone. Everything around them — extension detection,
//! format selection, the content-based fallback and the error surface — is
//! verified.

use vstd::prelude::*;

use serde_json::Value as JsonTree;

use crate::error::Error;
use crate::error::ParseFileFormatError;
use crate::text::lower_seq;
use crate::text::lowercase;
use crate::text::str_eq;
use crate::value::SpecValue;
use crate::value::Value;
use crate::value::value_wf;

verus! {

/// A supported configuration file format.
#[derive(Debug, Clone, Copy, PartialEq, Eq, Structural)]
pub enum FileFormat {
    Json,
    Yaml,
    Toml,
}

/// The tree that JSON text parses to, if any: a function of the text alone.
pub uninterp spec fn json_of(s: Seq<char>) -> Option<SpecValue>;

/// The tree that YAML text parses to, if any: a function of the text alone.
pub uninterp spec fn yaml_of(s: Seq<char>) -> Option<SpecValue>;

/// The tree that TOML text parses to, if any: a function of the text alone.
pub uninterp spec fn toml_of(s: Seq<char>) -> Option<SpecValue>;

#[verifier::external_type_specification]
#[verifier::external_body]
pub struct ExJsonTree(JsonTree);

/// Relies on serde_json's tree model: every variant is carried over one to
/// one, a number becomes its integer value or its decimal text, and object
/// keys stay unique, which is what the well-formedness claim states.
#[verifier::external_body]
fn from_json_tree(v: JsonTree) -> (r: Value)
    ensures
        value_wf(r@),
{
    match v {
        JsonTree::Null => Value::Null,
        JsonTree::Bool(b) => Value::Bool(b),
        JsonTree::Number(n) => match n.as_i64() {
            Some(i) => Value::Int(i),
            None => Value::Float(n.to_string()),
        },
        JsonTree::String(s) => Value::Text(s),
        JsonTree::Array(items) => Value::List(items.into_iter().map(from_json_tree).collect()),
        JsonTree::Object(map) => Value::Object(
            map.into_iter().map(|(k, w)| (k, from_json_tree(w))).collect(),
        ),
    }
}

/// Relies on serde_json::from_str: whether JSON text parses, and to which
/// tree, depends on the text alone; the tree's objects have unique keys.
#[verifier::external_body]
pub fn parse_json(s: &str) -> (r: Option<Value>)
    ensures
        (r is Some) == (json_of(s@) is Some),
        r matches Some(v) ==> v@ == json_of(s@)->0 && value_wf(v@),
{
    serde_json::from_str::<JsonTree>(s).ok().map(from_json_tree)
}

/// Relies on serde_yaml::from_str and serde_json::to_value: whether YAML text
/// parses and converts to the common tree shape, and to which tree, depends
/// on the text alone; the tree's objects have unique keys.
#[verifier::external_body]
pub fn parse_yaml(s: &str) -> (r: Option<Value>)
    ensures
        (r is Some) == (yaml_of(s@) is Some),
        r matches Some(v) ==> v@ == yaml_of(s@)->0 && value_wf(v@),
{
    serde_yaml::from_str::<serde_yaml::Value>(s)
        .ok()
        .and_then(|y| serde_json::to_value(y).ok())
        .map(from_json_tree)
}

/// Relies on toml::from_str and serde_json::to_value: whether TOML text
/// parses and converts to the common tree shape, and to which tree, depends
/// on the text alone; the tree's objects have unique keys.
#[verifier::external_body]
pub fn parse_toml(s: &str) -> (r: Option<Value>)
    ensures
        (r is Some) == (toml_of(s@) is Some),
        r matches Some(v) ==> v@ == toml_of(s@)->0 && value_wf(v@),
{
    toml::from_str::<toml::Value>(s)
        .ok()
        .and_then(|t| serde_json::to_value(t).ok())
        .map(from_json_tree)
}

/// The format a lower-cased extension names.
pub open spec fn spec_format_of(ext: Seq<char>) -> Option<FileFormat> {
    if lower_seq(ext) == "json"@ {
        Some(FileFormat::Json)
    } else if lower_seq(ext) == "yaml"@ || lower_seq(ext) == "yml"@ {
        Some(FileFormat::Yaml)
    } else if lower_seq(ext) == "toml"@ {
        Some(FileFormat::Toml)
    } else {
        None
    }
}

/// The format named by a file extension, case-insensitively.
pub fn format_of_extension(ext: &str) -> (r: Result<FileFormat, ParseFileFormatError>)
    ensures
        match spec_format_of(ext@) {
            Some(f) => r == Ok::<FileFormat, ParseFileFormatError>(f),
            None => r == Err::<FileFormat, ParseFileFormatError>(ParseFileFormatError),
        },
{
    let low = lowercase(ext);
    if str_eq(low.as_str(), "json") {
        Ok(FileFormat::Json)
    } else if str_eq(low.as_str(), "yaml") {
        Ok(FileFormat::Yaml)
    } else if str_eq(low.as_str(), "yml") {
        Ok(FileFormat::Yaml)
    } else if str_eq(low.as_str(), "toml") {
        Ok(FileFormat::Toml)
    } else {
        Err(ParseFileFormatError)
    }
}

/// The index of the last dot of the final path component, if any: scanning
/// from the end stops at a path separator.
pub open spec fn last_dot(s: Seq<char>) -> Option<int>
    decreases s.len(),
{
    if s.len() == 0 {
        None
    } else if s.last() == '.' {
        Some(s.len() - 1)
    } else if s.last() == '/' {
        None
    } else {
        last_dot(s.drop_last())
    }
}

/// The extension of a path: everything after the last dot of its final
/// component. A dot in an earlier component does not count.
pub open spec fn spec_extension(s: Seq<char>) -> Option<Seq<char>> {
    match last_dot(s) {
        None => None,
        Some(i) => Some(s.subrange(i + 1, s.len() as int)),
    }
}

/// `last_dot` returns the greatest index holding a dot, when no separator
/// follows it.
proof fn lemma_last_dot_at(s: Seq<char>, i: int)
    requires
        0 <= i < s.len(),
        s[i] == '.',
        forall|j: int| i < j < s.len() ==> s[j] != '.' && s[j] != '/',
    ensures
        last_dot(s) == Some(i),
    decreases s.len(),
{
    if i == s.len() - 1 {
    } else {
        assert(forall|j: int| 0 <= j < s.drop_last().len() ==> #[trigger] s.drop_last()[j] == s[j]);
        lemma_last_dot_at(s.drop_last(), i);
    }
}

/// Without a dot after the last separator there is no extension.
proof fn lemma_last_dot_none(s: Seq<char>, from: int)
    requires
        0 <= from <= s.len(),
        from > 0 ==> s[from - 1] == '/',
        forall|j: int| from <= j < s.len() ==> s[j] != '.',
    ensures
        last_dot(s) is None,
    decreases s.len(),
{
    if s.len() > 0 && s.last() != '.' && s.last() != '/' {
        assert(forall|j: int| 0 <= j < s.drop_last().len() ==> #[trigger] s.drop_last()[j] == s[j]);
        assert(from < s.len());
        lemma_last_dot_none(s.drop_last(), from);
    }
}

/// The extension of a path, if its final component has one.
pub fn extension_of(name: &str) -> (r: Option<String>)
    ensures
        match r {
            None => spec_extension(name@) is None,
            Some(e) => spec_extension(name@) == Some(e@),
        },
{
    let n = name.unicode_len();
    let mut i: usize = n;
    while i > 0
        invariant
            n == name@.len(),
            i <= n,
            forall|j: int| i <= j < n ==> name@[j] != '.' && name@[j] != '/',
        decreases i,
    {
        i = i - 1;
        let c = name.get_char(i);
        if c == '.' {
            proof {
                lemma_last_dot_at(name@, i as int);
            }
            let ext = name.substring_char(i + 1, n);
            return Some(ext.to_owned());
        }
        if c == '/' {
            proof {
                lemma_last_dot_none(name@, i + 1);
            }
            return None;
        }
    }
    proof {
        lemma_last_dot_none(name@, 0);
    }
    None
}

/// What parsing content under a given format yields.
pub open spec fn spec_parse_by_format(f: FileFormat, content: Seq<char>) -> Option<SpecValue> {
    match f {
        FileFormat::Json => json_of(content),
        FileFormat::Yaml => yaml_of(content),
        FileFormat::Toml => toml_of(content),
    }
}

/// The content-based fallback: the first of JSON, YAML, TOML that accepts
/// the content.
pub open spec fn spec_parse_auto(content: Seq<char>) -> Option<SpecValue> {
    if json_of(content) is Some {
        json_of(content)
    } else if yaml_of(content) is Some {
        yaml_of(content)
    } else {
        toml_of(content)
    }
}

/// How a file is parsed: a recognized extension picks its parser; a missing
/// or unrecognized extension leaves extension-based detection unavailable,
/// so the content-based fallback tries every parser in turn.
pub open spec fn spec_file_value(name: Seq<char>, content: Seq<char>) -> Option<SpecValue> {
    match spec_extension(name) {
        None => spec_parse_auto(content),
        Some(e) => match spec_format_of(e) {
            None => spec_parse_auto(content),
            Some(f) => spec_parse_by_format(f, content),
        },
    }
}

/// Parse content under one given format.
pub fn parse_file_content(content: &str, format: FileFormat) -> (r: Option<Value>)
    ensures
        (r is Some) == (spec_parse_by_format(format, content@) is Some),
        r matches Some(v) ==> v@ == spec_parse_by_format(format, content@)->0 && value_wf(v@),
{
    match format {
        FileFormat::Json => parse_json(content),
        FileFormat::Yaml => parse_yaml(content),
        FileFormat::Toml => parse_toml(content),
    }
}

/// Parse content by trying each format in turn: JSON, then YAML, then TOML.
pub fn parse_file_auto(content: &str) -> (r: Option<Value>)
    ensures
        (r is Some) == (spec_parse_auto(content@) is Some),
        r matches Some(v) ==> v@ == spec_parse_auto(content@)->0 && value_wf(v@),
{
    match parse_json(content) {
        Some(v) => Some(v),
        None => match parse_yaml(content) {
            Some(v) => Some(v),
            None => parse_toml(content),
        },
    }
}

/// The value a present configuration file contributes. A recognized
/// extension picks the parser; a missing or unrecognized extension falls
/// back to trying every format in turn; content that the attempted parsers
/// do not accept is an error, never silently dropped.
pub fn read_file_value(name: &str, content: &str) -> (r: Result<Value, Error>)
    ensures
        match spec_file_value(name@, content@) {
            None => r matches Err(e) && e is Parse,
            Some(v) => r matches Ok(val) && val@ == v && value_wf(v),
        },
{
    let parsed: Option<Value> = match extension_of(name) {
        None => parse_file_auto(content),
        Some(ext) => {
            match format_of_extension(ext.as_str()) {
                Ok(f) => parse_file_content(content, f),
                Err(_) => parse_file_auto(content),
            }
        },
    };
    match parsed {
        Some(v) => Ok(v),
        None => Err(Error::Parse(name.to_owned())),
    }
}

} // verus!
