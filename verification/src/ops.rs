//! The operations on the cache: listing, dropping, creating, updating,
//! exporting and importing notes.
//!
//! Each operation works on a cache in memory. Reading the cache, asking
//! the user and writing the cache back are the caller's part.

use vstd::prelude::*;
use crate::cache::{
    by_id, ids_ascending, lemma_by_id_at, lemma_by_id_found, note_views, place_of, Cache,
};
use crate::error::Error;
use crate::note::{Note, NoteView};
use crate::number::{id_value, parse_id, parse_unsigned, usize_value};
use crate::path::{
    beside, canonical, components, lemma_parent_canonical, lemma_relative_text_round_trip,
    lemma_rooted_iff_absolute, parent,
    parent_of, path_beside, relative_text, relative_to_folder, resolved, segments, segments_of,
    Segment,
};
use crate::query::{passes, passing, Query, QueryView};
use crate::tags::Tags;
use crate::text::{chars_of, opt_text};

verus! {

/// Filtering the first `i + 1` items of a list filters the first `i` and
/// then looks at the next one.
pub proof fn lemma_filter_next<A>(s: Seq<A>, keep: spec_fn(A) -> bool, i: int)
    requires
        0 <= i < s.len(),
    ensures
        s.take(i + 1).filter(keep) == (if keep(s[i]) {
            s.take(i).filter(keep).push(s[i])
        } else {
            s.take(i).filter(keep)
        }),
{
    reveal(Seq::filter);
    assert(s.take(i + 1).drop_last() =~= s.take(i));
    assert(s.take(i + 1).last() == s[i]);
}

/// Each note that a filter keeps is a note of the list, and what a filter
/// keeps of an ascending list is ascending.
pub proof fn lemma_filter_ascending(s: Seq<NoteView>, keep: spec_fn(NoteView) -> bool)
    requires
        ids_ascending(s),
    ensures
        ids_ascending(s.filter(keep)),
        forall|k: int|
            0 <= k < s.filter(keep).len() ==> keep(#[trigger] s.filter(keep)[k]) && s.contains(
                s.filter(keep)[k],
            ),
        forall|j: int| 0 <= j < s.len() && keep(#[trigger] s[j]) ==> s.filter(keep).contains(s[j]),
    decreases s.len(),
{
    reveal(Seq::filter);
    if s.len() > 0 {
        let init = s.drop_last();
        lemma_filter_ascending(init, keep);
        let kept = init.filter(keep);
        let all = s.filter(keep);
        assert forall|k: int| 0 <= k < kept.len() implies s.contains(#[trigger] kept[k]) && kept[k].id
            < s.last().id by {
            assert(init.contains(kept[k]));
            let j = choose|j: int| 0 <= j < init.len() && init[j] == kept[k];
            assert(s[j] == kept[k]);
        }
        if keep(s.last()) {
            assert(s[s.len() - 1] == s.last());
        }
        assert forall|j: int| 0 <= j < s.len() && keep(#[trigger] s[j]) implies all.contains(
            s[j],
        ) by {
            if j < s.len() - 1 {
                assert(init[j] == s[j]);
                assert(kept.contains(init[j]));
                let k = choose|k: int| 0 <= k < kept.len() && kept[k] == init[j];
                assert(all[k] == s[j]);
            } else {
                assert(all[all.len() - 1] == s[j]);
            }
        }
    }
}

/// The number of notes to show when the user gives none.
pub const DEFAULT_LIMIT: usize = 10;

/// The limit that an optional argument asks for: the decimal number that
/// it reads as, and ten where there is no argument or it is no number.
pub open spec fn limit_value(arg: Option<Seq<char>>) -> usize {
    match arg {
        Some(text) => match usize_value(text, 10) {
            Some(n) => n,
            None => DEFAULT_LIMIT,
        },
        None => DEFAULT_LIMIT,
    }
}

/// The text of an optional string slice.
pub open spec fn opt_str(s: Option<&str>) -> Option<Seq<char>> {
    match s {
        Some(t) => Some(t@),
        None => None,
    }
}

/// Reads the limit on the number of notes to show.
pub fn parse_limit(arg: Option<&str>) -> (limit: usize)
    ensures
        limit == limit_value(opt_str(arg)),
{
    match arg {
        Some(text) => match parse_unsigned(text, 10) {
            Some(n) => n,
            None => DEFAULT_LIMIT,
        },
        None => DEFAULT_LIMIT,
    }
}

/// The notes that a query finds, cut off at a limit.
#[derive(Debug, PartialEq, Eq)]
pub struct Listing {
    /// The first notes that match, in the order of the cache.
    pub notes: Vec<Note>,
    /// How many more notes match.
    pub remaining: usize,
}

/// How many of `found` notes a limit lets through.
pub open spec fn shown_len(found: nat, limit: usize) -> nat {
    if limit <= found {
        limit as nat
    } else {
        found
    }
}

/// Finds the notes that match `query`: the first `limit` of them in the
/// order of the cache, and the number of those beyond the limit.
pub fn open_list_notes(cache: &Cache, query: &Query, limit: usize) -> (listing: Listing)
    ensures
        note_views(listing.notes@) == cache.entries().filter(passing(query@)).take(
            shown_len(cache.entries().filter(passing(query@)).len(), limit) as int,
        ),
        listing.remaining == cache.entries().filter(passing(query@)).len() - shown_len(
            cache.entries().filter(passing(query@)).len(),
            limit,
        ),
{
    let notes = cache.notes();
    let ghost entries = cache.entries();
    let ghost keep = passing(query@);
    let mut shown: Vec<Note> = Vec::new();
    let mut remaining: usize = 0;
    let mut i: usize = 0;
    proof {
        reveal(Seq::filter);
        assert(entries.take(0) =~= Seq::<NoteView>::empty());
        assert(note_views(shown@) =~= entries.take(0).filter(keep).take(0));
    }
    while i < notes.len()
        invariant
            i <= notes.len(),
            note_views(notes@) == entries,
            keep == passing(query@),
            shown.len() + remaining == entries.take(i as int).filter(keep).len(),
            shown.len() == shown_len(entries.take(i as int).filter(keep).len(), limit),
            note_views(shown@) == entries.take(i as int).filter(keep).take(shown.len() as int),
            entries.take(i as int).filter(keep).len() <= i,
        decreases notes.len() - i,
    {
        proof {
            lemma_filter_next(entries, keep, i as int);
            assert(entries[i as int] == notes@[i as int]@);
        }
        if query.matches(&notes[i]) {
            let ghost was = entries.take(i as int).filter(keep);
            let ghost now = entries.take(i + 1).filter(keep);
            if shown.len() < limit {
                let ghost before = note_views(shown@);
                shown.push(notes[i].clone());
                proof {
                    assert(note_views(shown@) =~= before.push(entries[i as int]));
                    assert(now.take(shown.len() as int) =~= was.take(shown.len() - 1).push(
                        entries[i as int],
                    ));
                }
            } else {
                remaining += 1;
                proof {
                    assert(now.take(shown.len() as int) =~= was.take(shown.len() as int));
                }
            }
        }
        i += 1;
    }
    assert(entries.take(notes.len() as int) =~= entries);
    Listing { notes: shown, remaining }
}

/// The answer that a line of input gives to a yes-or-no question: `y` or
/// `yes` is yes, `n` or `no` is no, and anything else is no answer. The
/// end of the line is not part of the answer.
pub open spec fn confirmation(line: Seq<char>) -> Option<bool> {
    let word = without_line_end(line);
    if word == seq!['y'] || word == seq!['y', 'e', 's'] {
        Some(true)
    } else if word == seq!['n'] || word == seq!['n', 'o'] {
        Some(false)
    } else {
        None
    }
}

/// A line without the line feed, or carriage return and line feed, at its
/// end.
pub open spec fn without_line_end(line: Seq<char>) -> Seq<char> {
    let n = line.len() as int;
    if n >= 2 && line[n - 2] == '\r' && line[n - 1] == '\n' {
        line.take(n - 2)
    } else if n >= 1 && line[n - 1] == '\n' {
        line.take(n - 1)
    } else {
        line
    }
}

/// Reads the user's answer to a yes-or-no question from a line of input.
/// Where it returns `None` the question is to be asked again.
pub fn parse_confirmation(line: &str) -> (answer: Option<bool>)
    ensures
        answer == confirmation(line@),
{
    let chars = chars_of(line);
    let n = chars.len();
    let end = if n >= 2 && chars[n - 2] == '\r' && chars[n - 1] == '\n' {
        n - 2
    } else if n >= 1 && chars[n - 1] == '\n' {
        n - 1
    } else {
        n
    };
    let ghost word = chars@.take(end as int);
    assert(word == without_line_end(line@)) by {
        assert(chars@.take(n as int) =~= chars@);
    }
    proof {
        if word == seq!['y'] {
            assert(word.len() == 1 && word[0] == 'y');
        }
        if word == seq!['y', 'e', 's'] {
            assert(word.len() == 3 && word[0] == 'y' && word[1] == 'e' && word[2] == 's');
        }
        if word == seq!['n'] {
            assert(word.len() == 1 && word[0] == 'n');
        }
        if word == seq!['n', 'o'] {
            assert(word.len() == 2 && word[0] == 'n' && word[1] == 'o');
        }
    }
    if end == 1 && chars[0] == 'y' {
        assert(word =~= seq!['y']);
        Some(true)
    } else if end == 3 && chars[0] == 'y' && chars[1] == 'e' && chars[2] == 's' {
        assert(word =~= seq!['y', 'e', 's']);
        Some(true)
    } else if end == 1 && chars[0] == 'n' {
        assert(word =~= seq!['n']);
        Some(false)
    } else if end == 2 && chars[0] == 'n' && chars[1] == 'o' {
        assert(word =~= seq!['n', 'o']);
        Some(false)
    } else {
        None
    }
}

/// Whether a list of identifiers holds `id`.
fn holds_id(list: &Vec<usize>, id: usize) -> (r: bool)
    ensures
        r == list@.contains(id),
{
    let mut i: usize = 0;
    while i < list.len()
        invariant
            i <= list.len(),
            forall|k: int| 0 <= k < i ==> list@[k] != id,
        decreases list.len() - i,
    {
        if list[i] == id {
            assert(list@[i as int] == id);
            return true;
        }
        i += 1;
    }
    false
}

/// Whether a note is to be dropped: it matches the query, and either
/// nobody is to be asked or the user has said yes for its identifier.
pub open spec fn dropped(q: QueryView, force: bool, confirmed: Seq<usize>, note: NoteView) -> bool {
    passes(q, note) && (force || confirmed.contains(note.id))
}

/// The test that the notes that stay have passed.
pub open spec fn staying(q: QueryView, force: bool, confirmed: Seq<usize>) -> spec_fn(
    NoteView,
) -> bool {
    |note: NoteView| !dropped(q, force, confirmed, note)
}

/// The identifiers of a list of notes.
pub open spec fn ids_of(notes: Seq<NoteView>) -> Seq<usize> {
    Seq::new(notes.len(), |i: int| notes[i].id)
}

/// The part of a map whose notes pass a test.
pub open spec fn kept(m: Map<usize, NoteView>, keep: spec_fn(NoteView) -> bool) -> Map<
    usize,
    NoteView,
> {
    Map::new(|id: usize| m.contains_key(id) && keep(m[id]), |id: usize| m[id])
}

/// Filtering an ascending list of notes takes from the map exactly the
/// notes that fail the test, and leaves every other note as it was.
pub proof fn lemma_filter_by_id(s: Seq<NoteView>, keep: spec_fn(NoteView) -> bool)
    requires
        ids_ascending(s),
    ensures
        by_id(s.filter(keep)) == kept(by_id(s), keep),
{
    lemma_filter_ascending(s, keep);
    let f = s.filter(keep);
    assert forall|id: usize| by_id(f).contains_key(id) == kept(by_id(s), keep).contains_key(id) by {
        if by_id(f).contains_key(id) {
            lemma_by_id_found(f, id);
            let k = place_of(f, id);
            assert(s.contains(f[k]));
            let j = choose|j: int| 0 <= j < s.len() && s[j] == f[k];
            lemma_by_id_at(s, j);
        }
        if kept(by_id(s), keep).contains_key(id) {
            lemma_by_id_found(s, id);
            let j = place_of(s, id);
            assert(f.contains(s[j]));
            let k = choose|k: int| 0 <= k < f.len() && f[k] == s[j];
            lemma_by_id_at(f, k);
        }
    }
    assert forall|id: usize| by_id(f).contains_key(id) implies by_id(f)[id] == kept(
        by_id(s),
        keep,
    )[id] by {
        lemma_by_id_found(f, id);
        let k = place_of(f, id);
        assert(s.contains(f[k]));
        let j = choose|j: int| 0 <= j < s.len() && s[j] == f[k];
        lemma_by_id_at(s, j);
    }
    assert(by_id(f) =~= kept(by_id(s), keep));
}

/// The identifiers of the notes that match `query`, in the order of the
/// cache: the notes that a drop would ask about.
pub fn drop_candidates(cache: &Cache, query: &Query) -> (ids: Vec<usize>)
    ensures
        ids@ == ids_of(cache.entries().filter(passing(query@))),
{
    let notes = cache.notes();
    let ghost entries = cache.entries();
    let ghost keep = passing(query@);
    let mut ids: Vec<usize> = Vec::new();
    let mut i: usize = 0;
    proof {
        reveal(Seq::filter);
        assert(entries.take(0) =~= Seq::<NoteView>::empty());
        assert(ids@ =~= ids_of(entries.take(0).filter(keep)));
    }
    while i < notes.len()
        invariant
            i <= notes.len(),
            note_views(notes@) == entries,
            keep == passing(query@),
            ids@ == ids_of(entries.take(i as int).filter(keep)),
        decreases notes.len() - i,
    {
        proof {
            lemma_filter_next(entries, keep, i as int);
            assert(entries[i as int] == notes@[i as int]@);
        }
        if query.matches(&notes[i]) {
            ids.push(notes[i].id);
            assert(ids@ =~= ids_of(entries.take(i + 1).filter(keep)));
        }
        i += 1;
    }
    assert(entries.take(notes.len() as int) =~= entries);
    ids
}

/// Drops the notes that match `query`. With `force` every such note goes;
/// without it only those whose identifier is in `confirmed`, the notes
/// for which the user has said yes. The other notes stay as they are and
/// in their order. Returns the number of notes dropped.
pub fn drop_notes(cache: &mut Cache, query: &Query, force: bool, confirmed: &Vec<usize>) -> (count:
    usize)
    ensures
        final(cache).entries() == old(cache).entries().filter(staying(query@, force, confirmed@)),
        final(cache)@ == kept(old(cache)@, staying(query@, force, confirmed@)),
        count == old(cache).entries().len() - final(cache).entries().len(),
        final(cache).wf(),
{
    let ghost entries = cache.entries();
    let ghost keep = staying(query@, force, confirmed@);
    let mut stay: Vec<Note> = Vec::new();
    let mut count: usize = 0;
    let notes = cache.notes();
    let mut i: usize = 0;
    proof {
        reveal(Seq::filter);
        assert(entries.take(0) =~= Seq::<NoteView>::empty());
        assert(note_views(stay@) =~= entries.take(0).filter(keep));
    }
    while i < notes.len()
        invariant
            i <= notes.len(),
            note_views(notes@) == entries,
            keep == staying(query@, force, confirmed@),
            note_views(stay@) == entries.take(i as int).filter(keep),
            stay.len() + count == i,
        decreases notes.len() - i,
    {
        proof {
            lemma_filter_next(entries, keep, i as int);
            assert(entries[i as int] == notes@[i as int]@);
        }
        let goes = query.matches(&notes[i]) && (force || holds_id(confirmed, notes[i].id));
        if goes {
            count += 1;
        } else {
            let ghost before = note_views(stay@);
            stay.push(notes[i].clone());
            assert(note_views(stay@) =~= before.push(entries[i as int]));
        }
        i += 1;
    }
    proof {
        assert(entries.take(notes.len() as int) =~= entries);
        lemma_filter_ascending(entries, keep);
        lemma_filter_by_id(entries, keep);
    }
    *cache = Cache::from_ascending(stay);
    count
}

/// `rand::random::<usize>()`: a number drawn from the generator of the
/// running thread. Nothing is promised of the number: two calls may give
/// the same one.
#[verifier::external_body]
fn random_id() -> usize {
    rand::random::<usize>()
}

/// The note made of an identifier and the three things that the user
/// gives.
pub open spec fn made(id: usize, title: Seq<char>, tags: Set<Seq<char>>, body: Seq<char>) -> NoteView {
    NoteView { id, title, tags, body }
}

/// Puts a new note with the identifier `id` into the cache. A note that
/// was there under that identifier is replaced.
pub fn add_note(cache: &mut Cache, id: usize, title: String, tags: Tags, body: String)
    ensures
        final(cache)@ == old(cache)@.insert(id, made(id, title@, tags@, body@)),
        final(cache).wf(),
{
    let note = Note { id, title, tags, body };
    cache.insert(note);
}

/// Creates a note under an identifier drawn at random and returns the
/// identifier. `body` is the path of the note's file, already resolved.
///
/// The identifier is not held against those in the cache: with a chance
/// that is small but not zero it is one of them, and the new note then
/// takes the place of the old one.
pub fn new_note(cache: &mut Cache, title: String, tags: Tags, body: String) -> (id: usize)
    ensures
        final(cache)@ == old(cache)@.insert(id, made(id, title@, tags@, body@)),
        final(cache).wf(),
{
    let id = random_id();
    add_note(cache, id, title, tags, body);
    id
}

/// The set of an optional set of tags.
pub open spec fn opt_tags(tags: Option<Tags>) -> Option<Set<Seq<char>>> {
    match tags {
        Some(t) => Some(t@),
        None => None,
    }
}

/// A note after an update: each part that was given replaces the old one,
/// the identifier stays.
pub open spec fn revised(
    old: NoteView,
    title: Option<Seq<char>>,
    tags: Option<Set<Seq<char>>>,
    body: Option<Seq<char>>,
) -> NoteView {
    NoteView {
        id: old.id,
        title: match title {
            Some(t) => t,
            None => old.title,
        },
        tags: match tags {
            Some(t) => t,
            None => old.tags,
        },
        body: match body {
            Some(b) => b,
            None => old.body,
        },
    }
}

/// What looking up an identifier in hexadecimal gives: the identifier
/// where the cache holds a note under it, and else the reason.
pub open spec fn looked_up(m: Map<usize, NoteView>, id: Seq<char>) -> Result<usize, Error> {
    match id_value(id) {
        None => Err(Error::MalformedId),
        Some(k) => if m.contains_key(k) {
            Ok(k)
        } else {
            Err(Error::NoSuchNote(k))
        },
    }
}

/// Reads an identifier and makes sure that the cache holds a note under
/// it.
pub fn lookup_id(cache: &Cache, id: &str) -> (r: Result<usize, Error>)
    ensures
        r == looked_up(cache@, id@),
{
    match parse_id(id) {
        None => Err(Error::MalformedId),
        Some(k) => if cache.contains_key(k) {
            Ok(k)
        } else {
            Err(Error::NoSuchNote(k))
        },
    }
}

/// Updates the note with the identifier `id`, given in hexadecimal. Each
/// of `title`, `tags` and `body` that is given replaces the note's own;
/// `body` is a path already resolved. Where the identifier does not read
/// as a number, or the cache holds no note under it, the cache stays as
/// it is.
pub fn update_note(
    cache: &mut Cache,
    id: &str,
    title: Option<String>,
    tags: Option<Tags>,
    body: Option<String>,
) -> (r: Result<(), Error>)
    ensures
        match looked_up(old(cache)@, id@) {
            Ok(k) => r is Ok && final(cache)@ == old(cache)@.insert(
                k,
                revised(old(cache)@[k], opt_text(title), opt_tags(tags), opt_text(body)),
            ),
            Err(e) => r == Err::<(), Error>(e) && *final(cache) == *old(cache),
        },
        final(cache).wf(),
{
    proof {
        use_type_invariant(&*cache);
    }
    let k = match lookup_id(cache, id) {
        Ok(k) => k,
        Err(e) => {
            return Err(e);
        },
    };
    let ghost before = cache@;
    proof {
        lemma_by_id_found(cache.entries(), k);
    }
    let was = match cache.remove(k) {
        Some(note) => note,
        None => {
            return Err(Error::NoSuchNote(k));
        },
    };
    let note = Note {
        id: was.id,
        title: match title {
            Some(t) => t,
            None => was.title,
        },
        tags: match tags {
            Some(t) => t,
            None => was.tags,
        },
        body: match body {
            Some(b) => b,
            None => was.body,
        },
    };
    cache.insert(note);
    assert(before.remove(k).insert(k, note@) =~= before.insert(k, note@));
    Ok(())
}

/// The directory that an export is relative to: the one that holds the
/// export file.
pub open spec fn export_folder(file: Seq<char>) -> Seq<Segment> {
    parent_of(segments(file))
}

/// Whether there is a way to the body of a note from a directory.
pub open spec fn reachable(note: NoteView, folder: Seq<Segment>) -> bool {
    relative_text(note.body, folder) is Some
}

/// A note with the way to its body from a directory in place of its body.
pub open spec fn relocated(note: NoteView, folder: Seq<Segment>) -> NoteView {
    NoteView {
        id: note.id,
        title: note.title,
        tags: note.tags,
        body: relative_text(note.body, folder)->0,
    }
}

/// The notes of a list, each with the way to its body from a directory.
pub open spec fn all_relocated(found: Seq<NoteView>, folder: Seq<Segment>) -> Seq<NoteView> {
    Seq::new(found.len(), |i: int| relocated(found[i], folder))
}

/// Whether the note at place `i` is the first to whose body there is no
/// way from a directory.
pub open spec fn first_unreachable(found: Seq<NoteView>, folder: Seq<Segment>, i: int) -> bool {
    &&& 0 <= i < found.len()
    &&& !reachable(found[i], folder)
    &&& forall|j: int| 0 <= j < i ==> reachable(#[trigger] found[j], folder)
}

/// What an export gives for the notes that the query has found: the notes
/// as they are, or, for an export relative to the directory of `file`,
/// the notes with their bodies written from that directory, unless there
/// is no such way for one of them.
pub open spec fn export_holds(
    found: Seq<NoteView>,
    relative_to: Option<Seq<char>>,
    r: Result<Seq<NoteView>, Error>,
) -> bool {
    match relative_to {
        None => r == Ok::<Seq<NoteView>, Error>(found),
        Some(file) => match r {
            Ok(list) => {
                &&& forall|i: int|
                    0 <= i < found.len() ==> reachable(#[trigger] found[i], export_folder(file))
                &&& list == all_relocated(found, export_folder(file))
            },
            Err(e) => exists|i: int|
                first_unreachable(found, export_folder(file), i) && e == Error::RelativePath(
                    (#[trigger] found[i]).id,
                ),
        },
    }
}

/// What an export has returned, over what the notes hold.
pub open spec fn export_view(r: Result<Vec<Note>, Error>) -> Result<Seq<NoteView>, Error> {
    match r {
        Ok(list) => Ok(note_views(list@)),
        Err(e) => Err(e),
    }
}

/// Chooses the notes to export: those that match `query`, in the order of
/// the cache. With `relative_to`, the resolved path of the export file,
/// each body is rewritten as the way to it from the directory of that
/// file; the first note for which there is no such way fails the export.
pub fn export_notes(cache: &Cache, query: &Query, relative_to: Option<&str>) -> (r: Result<
    Vec<Note>,
    Error,
>)
    ensures
        export_holds(cache.entries().filter(passing(query@)), opt_str(relative_to), export_view(r)),
{
    let ghost found = cache.entries().filter(passing(query@));
    let total = cache.len();
    let listing = open_list_notes(cache, query, total);
    let notes = listing.notes;
    assert(note_views(notes@) == found) by {
        cache.entries().lemma_filter_len(passing(query@));
        assert(found.take(found.len() as int) =~= found);
    }
    let file = match relative_to {
        None => {
            return Ok(notes);
        },
        Some(file) => file,
    };
    let folder = parent(components(file));
    let ghost dir = export_folder(file@);
    let mut out: Vec<Note> = Vec::new();
    let mut i: usize = 0;
    while i < notes.len()
        invariant
            i <= notes.len(),
            note_views(notes@) == found,
            found == cache.entries().filter(passing(query@)),
            segments_of(folder@) == dir,
            dir == export_folder(file@),
            opt_str(relative_to) == Some(file@),
            forall|j: int| 0 <= j < i ==> reachable(#[trigger] found[j], dir),
            note_views(out@) == all_relocated(found, dir).take(i as int),
        decreases notes.len() - i,
    {
        let note = &notes[i];
        assert(found[i as int] == note@);
        match relative_to_folder(note.body.as_str(), &folder) {
            Some(way) => {
                let ghost before = note_views(out@);
                out.push(
                    Note { id: note.id, title: note.title.clone(), tags: note.tags.clone(), body: way },
                );
                assert(note_views(out@) =~= before.push(relocated(found[i as int], dir)));
                assert(all_relocated(found, dir).take(i + 1) =~= all_relocated(found, dir).take(
                    i as int,
                ).push(relocated(found[i as int], dir)));
            },
            None => {
                assert(first_unreachable(found, dir, i as int));
                return Err(Error::RelativePath(note.id));
            },
        }
        i += 1;
    }
    assert(all_relocated(found, dir).take(notes.len() as int) =~= all_relocated(found, dir));
    Ok(out)
}

/// In an export relative to a canonical file path, each note with a
/// canonical body is written with a way that leads from the directory of
/// the export file back to that body.
pub proof fn lemma_relocated_leads_back(note: NoteView, file: Seq<char>)
    requires
        canonical(segments(note.body)),
        canonical(segments(file)),
    ensures
        reachable(note, export_folder(file)),
        resolved(export_folder(file), segments(relocated(note, export_folder(file)).body))
            == segments(note.body),
{
    lemma_parent_canonical(segments(file));
    lemma_rooted_iff_absolute(note.body);
    lemma_relative_text_round_trip(note.body, export_folder(file));
}

/// The cache after one note was imported: the note is put in unless the
/// cache holds a note under its identifier and that one is to stay.
pub open spec fn import_one(m: Map<usize, NoteView>, note: NoteView, overwrite: bool) -> Map<
    usize,
    NoteView,
> {
    if !m.contains_key(note.id) || overwrite {
        m.insert(note.id, note)
    } else {
        m
    }
}

/// The cache after a list of notes was imported, one after the other.
pub open spec fn import_all(m: Map<usize, NoteView>, list: Seq<NoteView>, overwrite: bool) -> Map<
    usize,
    NoteView,
>
    decreases list.len(),
{
    if list.len() == 0 {
        m
    } else {
        import_one(import_all(m, list.drop_last(), overwrite), list.last(), overwrite)
    }
}

/// Whether the user is to be asked before `note` is imported: the cache
/// holds a note under its identifier, and asking was not waived.
pub fn needs_confirmation(cache: &Cache, note: &Note, force: bool) -> (ask: bool)
    ensures
        ask == (!force && cache@.contains_key(note.id)),
{
    !force && cache.contains_key(note.id)
}

/// Imports one note. Where the cache holds a note under the same
/// identifier, the new one replaces it only with `overwrite`. Returns
/// whether the note was put in.
pub fn import_note(cache: &mut Cache, note: Note, overwrite: bool) -> (put_in: bool)
    ensures
        final(cache)@ == import_one(old(cache)@, note@, overwrite),
        put_in == (!old(cache)@.contains_key(note.id) || overwrite),
        !put_in ==> *final(cache) == *old(cache),
        final(cache).wf(),
{
    proof {
        use_type_invariant(&*cache);
    }
    if overwrite || !cache.contains_key(note.id) {
        cache.insert(note);
        true
    } else {
        false
    }
}

/// Imports a list of notes, one after the other. Returns how many were
/// put in.
pub fn import_notes(cache: &mut Cache, notes: Vec<Note>, overwrite: bool) -> (count: usize)
    ensures
        final(cache)@ == import_all(old(cache)@, note_views(notes@), overwrite),
        count <= notes.len(),
        final(cache).wf(),
{
    proof {
        use_type_invariant(&*cache);
    }
    let ghost all = note_views(notes@);
    let mut count: usize = 0;
    let mut i: usize = 0;
    assert(all.take(0) =~= Seq::<NoteView>::empty());
    while i < notes.len()
        invariant
            i <= notes.len(),
            count <= i,
            all == note_views(notes@),
            cache@ == import_all(old(cache)@, all.take(i as int), overwrite),
            cache.wf(),
        decreases notes.len() - i,
    {
        proof {
            assert(all.take(i + 1).drop_last() =~= all.take(i as int));
            assert(all.take(i + 1).last() == notes@[i as int]@);
        }
        if import_note(cache, notes[i].clone(), overwrite) {
            count += 1;
        }
        i += 1;
    }
    assert(all.take(notes.len() as int) =~= all);
    count
}

/// Where the body of a note that was exported relative to its export file
/// lies, seen from where the import runs: the body taken from the
/// directory of the import file. The path is not yet resolved.
pub fn import_body(file: &str, body: &str) -> (path: String)
    ensures
        path@ == beside(file@, body@),
{
    path_beside(file, body)
}

/// Importing an ascending list of notes into the empty cache gives the
/// cache of exactly those notes, whether or not notes may be overwritten.
pub proof fn lemma_import_into_empty(list: Seq<NoteView>, overwrite: bool)
    requires
        ids_ascending(list),
    ensures
        import_all(Map::empty(), list, overwrite) == by_id(list),
    decreases list.len(),
{
    if list.len() == 0 {
        assert(by_id(list) =~= Map::<usize, NoteView>::empty());
    } else {
        let init = list.drop_last();
        let last = list.last();
        lemma_import_into_empty(init, overwrite);
        lemma_by_id_at(list, list.len() - 1);
        if by_id(init).contains_key(last.id) {
            lemma_by_id_found(init, last.id);
            let j = place_of(init, last.id);
            assert(list[j].id < list[list.len() - 1].id);
        }
        let want = by_id(init).insert(last.id, last);
        assert forall|id: usize| by_id(list).contains_key(id) == want.contains_key(id) by {
            if by_id(list).contains_key(id) && id != last.id {
                lemma_by_id_found(list, id);
                let j = place_of(list, id);
                assert(init[j].id == id);
            }
            if by_id(init).contains_key(id) {
                lemma_by_id_found(init, id);
                let j = place_of(init, id);
                assert(list[j].id == id);
            }
        }
        assert forall|id: usize| by_id(list).contains_key(id) implies by_id(list)[id] == want[id] by {
            if id != last.id {
                lemma_by_id_found(list, id);
                let j = place_of(list, id);
                assert(init[j] == list[j]);
                lemma_by_id_at(init, j);
            }
        }
        assert(by_id(list) =~= want);
    }
}

/// A query that every note matches finds the whole list.
pub proof fn lemma_filter_all(list: Seq<NoteView>, q: QueryView)
    requires
        forall|note: NoteView| passes(q, note),
    ensures
        list.filter(passing(q)) == list,
    decreases list.len(),
{
    reveal(Seq::filter);
    if list.len() > 0 {
        lemma_filter_all(list.drop_last(), q);
        assert(list.drop_last().push(list.last()) =~= list);
    }
}

/// What a plain export of a cache gives, imported into the empty cache,
/// is the part of the cache that the query has chosen, note for note; for
/// a query that every note matches it is the cache itself.
pub proof fn lemma_export_import(cache: Cache, q: QueryView, list: Seq<NoteView>, overwrite: bool)
    requires
        cache.wf(),
        export_holds(cache.entries().filter(passing(q)), None, Ok(list)),
    ensures
        import_all(Map::empty(), list, overwrite) == kept(cache@, passing(q)),
        (forall|note: NoteView| passes(q, note)) ==> import_all(Map::empty(), list, overwrite)
            == cache@,
{
    cache.lemma_entries_ascending();
    let entries = cache.entries();
    lemma_filter_ascending(entries, passing(q));
    lemma_filter_by_id(entries, passing(q));
    lemma_import_into_empty(list, overwrite);
    if forall|note: NoteView| passes(q, note) {
        lemma_filter_all(entries, q);
    }
}

} // verus!
