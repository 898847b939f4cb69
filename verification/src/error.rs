//! What can go wrong, and how it is told to the user.

use vstd::prelude::*;
use crate::number::{format_id, id_text};

verus! {

/// The failures of the note index.
#[derive(Debug, PartialEq, Eq)]
pub enum Error {
    /// The cache file could not be opened.
    OpenCache,
    /// The cache file does not hold a cache.
    DecodeCache,
    /// The cache file could not be created.
    CreateCache,
    /// The cache could not be written out.
    EncodeCache,
    /// The user's home directory is unknown.
    HomeDir,
    /// An identifier does not read as a hexadecimal number.
    MalformedId,
    /// The cache holds no note with this identifier.
    NoSuchNote(usize),
    /// The export file could not be created.
    CreateExport,
    /// The export file could not be written.
    WriteExport,
    /// The import file could not be read.
    ReadExport,
    /// This path could not be resolved to an existing file.
    Canonicalize(String),
    /// There is no relative path to the body of the note with this
    /// identifier.
    RelativePath(usize),
    /// The notes could not be written as JSON.
    JsonEncode,
    /// The text is not the JSON of a list of notes.
    JsonDecode,
}

/// The line that tells the user of a failure.
pub open spec fn message(e: Error) -> Seq<char> {
    match e {
        Error::OpenCache => "failed to open the notes cache"@,
        Error::DecodeCache => "failed to decode the notes cache"@,
        Error::CreateCache => "failed to create the notes cache"@,
        Error::EncodeCache => "failed to encode the notes cache"@,
        Error::HomeDir => "failed to find your home directory"@,
        Error::MalformedId => "id could not be parsed"@,
        Error::NoSuchNote(id) => "no note with id '"@ + id_text(id) + "' found"@,
        Error::CreateExport => "failed to create export file"@,
        Error::WriteExport => "failed to write export file"@,
        Error::ReadExport => "failed to read import file"@,
        Error::Canonicalize(path) => "failed to canonicalize path '"@ + path@ + "'"@,
        Error::RelativePath(id) => "failed to get relative path of note '"@ + id_text(id) + "'"@,
        Error::JsonEncode => "failed to encode json"@,
        Error::JsonDecode => "failed to decode json"@,
    }
}

/// The line that tells the user of the failure `e`.
pub fn print_error(e: Error) -> (line: String)
    ensures
        line@ == message(e),
{
    match e {
        Error::OpenCache => "failed to open the notes cache".to_owned(),
        Error::DecodeCache => "failed to decode the notes cache".to_owned(),
        Error::CreateCache => "failed to create the notes cache".to_owned(),
        Error::EncodeCache => "failed to encode the notes cache".to_owned(),
        Error::HomeDir => "failed to find your home directory".to_owned(),
        Error::MalformedId => "id could not be parsed".to_owned(),
        Error::NoSuchNote(id) => {
            let mut line = "no note with id '".to_owned();
            line.append(format_id(id).as_str());
            line.append("' found");
            line
        },
        Error::CreateExport => "failed to create export file".to_owned(),
        Error::WriteExport => "failed to write export file".to_owned(),
        Error::ReadExport => "failed to read import file".to_owned(),
        Error::Canonicalize(path) => {
            let mut line = "failed to canonicalize path '".to_owned();
            line.append(path.as_str());
            line.append("'");
            line
        },
        Error::RelativePath(id) => {
            let mut line = "failed to get relative path of note '".to_owned();
            line.append(format_id(id).as_str());
            line.append("'");
            line
        },
        Error::JsonEncode => "failed to encode json".to_owned(),
        Error::JsonDecode => "failed to decode json".to_owned(),
    }
}

} // verus!
