//! The note record and the tests of a single record against one filter.

use vstd::prelude::*;
use crate::number::{id_value, parse_id};
use crate::pattern::{regex_search, search};
use crate::tags::Tags;
use crate::text::opt_text;

verus! {

/// A note: an identifier, a title, a set of tags, and the path of the file
/// that holds the note's text.
#[derive(Debug, PartialEq, Eq)]
pub struct Note {
    pub id: usize,
    pub title: String,
    pub tags: Tags,
    pub body: String,
}

/// What a note holds.
pub struct NoteView {
    pub id: usize,
    pub title: Seq<char>,
    pub tags: Set<Seq<char>>,
    pub body: Seq<char>,
}

impl View for Note {
    type V = NoteView;

    open spec fn view(&self) -> NoteView {
        NoteView { id: self.id, title: self.title@, tags: self.tags@, body: self.body@ }
    }
}

impl Clone for Note {
    fn clone(&self) -> (r: Self)
        ensures
            r@ == self@,
            r.tags.names() == self.tags.names(),
    {
        Note {
            id: self.id,
            title: self.title.clone(),
            tags: self.tags.clone(),
            body: self.body.clone(),
        }
    }
}

/// An identifier filter passes a note when it reads, in hexadecimal, as
/// the note's identifier. A filter that does not read as a number passes
/// no note.
pub open spec fn id_passes(note: NoteView, filter: Seq<char>) -> bool {
    id_value(filter) == Some(note.id)
}

/// What the search of a title gave, as a yes or no: a pattern that was
/// refused matches nothing.
pub open spec fn found(outcome: Option<bool>) -> bool {
    outcome == Some(true)
}

/// A title filter passes a note when it is a regular expression that
/// matches somewhere in the note's title.
pub open spec fn title_passes(note: NoteView, filter: Seq<char>) -> bool {
    found(regex_search(filter, note.title))
}

/// A tag filter passes a note that has every tag of the filter.
pub open spec fn tags_pass(note: NoteView, filter: Set<Seq<char>>) -> bool {
    filter.subset_of(note.tags)
}

/// A body filter is a path after it was resolved, or nothing where it
/// could not be resolved. It passes a note whose body is that very path.
pub open spec fn body_passes(note: NoteView, filter: Option<Seq<char>>) -> bool {
    filter == Some(note.body)
}

/// Whether the outcome of a search says that the text matched.
pub fn is_found(outcome: Option<bool>) -> (r: bool)
    ensures
        r == found(outcome),
{
    match outcome {
        Some(hit) => hit,
        None => false,
    }
}

impl Note {
    /// Whether `filter`, read as a hexadecimal number, is this note's
    /// identifier.
    pub fn filter_id(&self, filter: &str) -> (r: bool)
        ensures
            r == id_passes(self@, filter@),
    {
        match parse_id(filter) {
            Some(id) => id == self.id,
            None => false,
        }
    }

    /// Whether `filter`, read as a regular expression, matches somewhere
    /// in this note's title.
    pub fn filter_title(&self, filter: &str) -> (r: bool)
        ensures
            r == title_passes(self@, filter@),
    {
        is_found(search(filter, self.title.as_str()))
    }

    /// Whether this note has every tag of `filter`.
    pub fn filter_tags(&self, filter: Tags) -> (r: bool)
        ensures
            r == tags_pass(self@, filter@),
    {
        filter.is_subset(&self.tags)
    }

    /// Whether this note's body is the path `filter`. The filter is what
    /// resolving the path that the user gave has produced; where that
    /// failed it is `None`, and no note passes.
    pub fn filter_body(&self, filter: &Option<String>) -> (r: bool)
        ensures
            r == body_passes(self@, opt_text(*filter)),
    {
        match filter {
            Some(path) => *path == self.body,
            None => false,
        }
    }
}

} // verus!
