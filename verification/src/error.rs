//! The error surface of the loading pipeline.

use vstd::prelude::*;

verus! {

/// A file extension that names no supported configuration format.
#[derive(Debug, Clone, Copy, PartialEq, Eq, Structural)]
pub struct ParseFileFormatError;

/// Everything that can make a load fail. An absent configuration file is not
/// an error; a present file that no parser accepts is.
#[derive(Debug)]
pub enum Error {
    /// A file exists but could not be read.
    Io(String),
    /// A file's content was accepted by no attempted format parser.
    Parse(String),
    /// A file extension names no supported format, as `format_of_extension`
    /// reports it; the loading pipeline itself does not fail on such a file
    /// but falls back to content-based detection.
    ParseFileFormat(ParseFileFormatError),
    /// The merged tree does not fit the target type.
    ConfigParse { target_type: String, message: String },
    /// A source-specific environment failure.
    Environment(String),
    /// The validation callback rejected the merged tree.
    Validation(String),
}

} // verus!
