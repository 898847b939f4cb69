//! The cache: all the notes, one for each identifier, kept in ascending
//! order of their identifiers.

use vstd::prelude::*;
use crate::note::{Note, NoteView};

verus! {

/// What a list of notes holds.
pub open spec fn note_views(notes: Seq<Note>) -> Seq<NoteView> {
    Seq::new(notes.len(), |i: int| notes[i]@)
}

/// Whether the identifiers of a list of notes are strictly ascending, so
/// that no identifier occurs twice.
pub open spec fn ids_ascending(entries: Seq<NoteView>) -> bool {
    forall|i: int, j: int| 0 <= i < j < entries.len() ==> (#[trigger] entries[i]).id < (#[trigger] entries[j]).id
}

/// Whether a list holds a note with the identifier `id`.
pub open spec fn holds(entries: Seq<NoteView>, id: usize) -> bool {
    exists|i: int| 0 <= i < entries.len() && (#[trigger] entries[i]).id == id
}

/// A place in the list of a note with the identifier `id`.
pub open spec fn place_of(entries: Seq<NoteView>, id: usize) -> int {
    choose|i: int| 0 <= i < entries.len() && (#[trigger] entries[i]).id == id
}

/// The notes of a list by their identifiers.
pub open spec fn by_id(entries: Seq<NoteView>) -> Map<usize, NoteView> {
    Map::new(|id: usize| holds(entries, id), |id: usize| entries[place_of(entries, id)])
}

/// In an ascending list each note is the one found under its identifier.
pub proof fn lemma_by_id_at(entries: Seq<NoteView>, i: int)
    requires
        ids_ascending(entries),
        0 <= i < entries.len(),
    ensures
        by_id(entries).contains_key(entries[i].id),
        by_id(entries)[entries[i].id] == entries[i],
        place_of(entries, entries[i].id) == i,
{
    let id = entries[i].id;
    assert(holds(entries, id));
    let j = place_of(entries, id);
    if j < i {
        assert(entries[j].id < entries[i].id);
    } else if i < j {
        assert(entries[i].id < entries[j].id);
    }
}

/// What is found under an identifier is a note of the list with that
/// identifier.
pub proof fn lemma_by_id_found(entries: Seq<NoteView>, id: usize)
    requires
        by_id(entries).contains_key(id),
    ensures
        0 <= place_of(entries, id) < entries.len(),
        entries[place_of(entries, id)].id == id,
        by_id(entries)[id] == entries[place_of(entries, id)],
{
    assert(holds(entries, id));
}

/// Two ascending lists that hold the same notes under the same
/// identifiers are the same list.
pub proof fn lemma_ascending_lists_equal(a: Seq<NoteView>, b: Seq<NoteView>)
    requires
        ids_ascending(a),
        ids_ascending(b),
        by_id(a) == by_id(b),
    ensures
        a == b,
    decreases a.len(),
{
    if a.len() == 0 {
        if b.len() > 0 {
            lemma_by_id_at(b, 0);
            lemma_by_id_found(a, b[0].id);
        }
        assert(a =~= b);
    } else if b.len() == 0 {
        lemma_by_id_at(a, 0);
        lemma_by_id_found(b, a[0].id);
    } else {
        // The last notes are the same: each list's last identifier is its
        // greatest, and is found in the other list.
        let la = a.len() - 1;
        let lb = b.len() - 1;
        lemma_by_id_at(a, la);
        lemma_by_id_at(b, lb);
        lemma_by_id_found(b, a[la].id);
        lemma_by_id_found(a, b[lb].id);
        let ia = place_of(a, b[lb].id);
        let ib = place_of(b, a[la].id);
        if ia < la {
            assert(a[ia].id < a[la].id);
        }
        if ib < lb {
            assert(b[ib].id < b[lb].id);
        }
        assert(a[la].id == b[lb].id);
        assert(a[la] == b[lb]);
        let a0 = a.drop_last();
        let b0 = b.drop_last();
        assert forall|id: usize| by_id(a0).contains_key(id) == by_id(b0).contains_key(id) by {
            if by_id(a0).contains_key(id) {
                lemma_by_id_found(a0, id);
                let i = place_of(a0, id);
                assert(a[i].id == id);
                lemma_by_id_at(a, i);
                lemma_by_id_found(b, id);
                let j = place_of(b, id);
                if j == lb {
                    assert(a[i].id < a[la].id);
                }
                assert(b0[j].id == id);
            }
            if by_id(b0).contains_key(id) {
                lemma_by_id_found(b0, id);
                let i = place_of(b0, id);
                assert(b[i].id == id);
                lemma_by_id_at(b, i);
                lemma_by_id_found(a, id);
                let j = place_of(a, id);
                if j == la {
                    assert(b[i].id < b[lb].id);
                }
                assert(a0[j].id == id);
            }
        }
        assert forall|id: usize| by_id(a0).contains_key(id) implies by_id(a0)[id] == by_id(b0)[id] by {
            lemma_by_id_found(a0, id);
            lemma_by_id_found(b0, id);
            let i = place_of(a0, id);
            let j = place_of(b0, id);
            assert(a[i] == a0[i] && b[j] == b0[j]);
            lemma_by_id_at(a, i);
            lemma_by_id_at(b, j);
        }
        assert(by_id(a0) =~= by_id(b0));
        lemma_ascending_lists_equal(a0, b0);
        assert(a =~= a0.push(a[la]));
        assert(b =~= b0.push(b[lb]));
    }
}

/// The place of `id` in an ascending list: the number of notes with a
/// smaller identifier.
fn position(notes: &Vec<Note>, id: usize) -> (pos: usize)
    ensures
        pos <= notes.len(),
        forall|k: int| 0 <= k < pos ==> (#[trigger] notes[k]).id < id,
        pos < notes.len() ==> notes[pos as int].id >= id,
{
    let mut pos: usize = 0;
    let mut placed = false;
    while !placed && pos < notes.len()
        invariant
            pos <= notes.len(),
            forall|k: int| 0 <= k < pos ==> (#[trigger] notes[k]).id < id,
            placed ==> pos < notes.len() && notes[pos as int].id >= id,
        decreases notes.len() - pos + (if placed { 0int } else { 1int }),
    {
        if notes[pos].id < id {
            pos += 1;
        } else {
            placed = true;
        }
    }
    pos
}

/// Puts `note` into an ascending list, in place of the note with its
/// identifier where there is one.
fn put(notes: &mut Vec<Note>, note: Note) -> (replaced: Option<Note>)
    requires
        ids_ascending(note_views(old(notes)@)),
    ensures
        ids_ascending(note_views(final(notes)@)),
        by_id(note_views(final(notes)@)) == by_id(note_views(old(notes)@)).insert(note.id, note@),
        match replaced {
            Some(was) => by_id(note_views(old(notes)@)).contains_key(note.id) && was@ == by_id(
                note_views(old(notes)@),
            )[note.id],
            None => !by_id(note_views(old(notes)@)).contains_key(note.id),
        },
{
    let ghost before = note_views(notes@);
    let ghost nv = note@;
    let id = note.id;
    let pos = position(notes, id);
    let present = pos < notes.len() && notes[pos].id == id;
    proof {
        assert forall|k: int| 0 <= k < before.len() implies (#[trigger] before[k]).id == notes@[k].id by {}
        if !present {
            assert forall|k: int| 0 <= k < before.len() implies (#[trigger] before[k]).id != id by {
                if k >= pos {
                    if k > pos {
                        assert(before[pos as int].id < before[k].id);
                    }
                } else {
                    assert(notes@[k].id < id);
                }
            }
            assert(!holds(before, id));
        } else {
            lemma_by_id_at(before, pos as int);
        }
        assert(forall|k: int| 0 <= k < pos ==> (#[trigger] before[k]).id < id);
        assert(!present && pos < before.len() ==> before[pos as int].id > id);
    }
    let replaced = if present {
        let mut incoming = note;
        core::mem::swap(&mut notes[pos], &mut incoming);
        Some(incoming)
    } else {
        notes.insert(pos, note);
        None
    };
    proof {
        let after = note_views(notes@);
        if present {
            assert(after =~= before.update(pos as int, nv));
        } else {
            assert(after =~= before.insert(pos as int, nv));
        }
        assert forall|i: int, j: int| 0 <= i < j < after.len() implies (#[trigger] after[i]).id < (
        #[trigger] after[j]).id by {
            if present {
                assert(after[i].id == before[i].id && after[j].id == before[j].id);
            } else {
                let oi = if i < pos { i } else { i - 1 };
                let oj = if j < pos { j } else { j - 1 };
                if i != pos && j != pos {
                    assert(before[oi].id < before[oj].id);
                } else if i == pos {
                    if oj > pos {
                        assert(before[pos as int].id < before[oj].id);
                    }
                } else {
                    assert(before[oi].id < id);
                }
            }
        }
        lemma_by_id_at(after, pos as int);
        let want = by_id(before).insert(id, nv);
        assert forall|k: usize| by_id(after).contains_key(k) == want.contains_key(k) by {
            if by_id(after).contains_key(k) && k != id {
                lemma_by_id_found(after, k);
                let i = place_of(after, k);
                let oi = if present || i < pos { i } else { i - 1 };
                assert(before[oi].id == k);
            }
            if by_id(before).contains_key(k) && k != id {
                lemma_by_id_found(before, k);
                let i = place_of(before, k);
                let ni = if present || i < pos { i } else { i + 1 };
                assert(after[ni].id == k);
            }
        }
        assert forall|k: usize| by_id(after).contains_key(k) implies by_id(after)[k] == want[k] by {
            if k != id {
                lemma_by_id_found(after, k);
                let i = place_of(after, k);
                let oi = if present || i < pos { i } else { i - 1 };
                assert(before[oi] == after[i]);
                lemma_by_id_at(before, oi);
            }
        }
        assert(by_id(after) =~= want);
    }
    replaced
}

/// Takes the note with the identifier `id` out of an ascending list.
fn take_out(notes: &mut Vec<Note>, id: usize) -> (removed: Option<Note>)
    requires
        ids_ascending(note_views(old(notes)@)),
    ensures
        ids_ascending(note_views(final(notes)@)),
        by_id(note_views(final(notes)@)) == by_id(note_views(old(notes)@)).remove(id),
        match removed {
            Some(was) => by_id(note_views(old(notes)@)).contains_key(id) && was@ == by_id(
                note_views(old(notes)@),
            )[id],
            None => !by_id(note_views(old(notes)@)).contains_key(id),
        },
{
    let ghost before = note_views(notes@);
    let pos = position(notes, id);
    let present = pos < notes.len() && notes[pos].id == id;
    proof {
        assert forall|k: int| 0 <= k < before.len() implies (#[trigger] before[k]).id == notes@[k].id by {}
    }
    if !present {
        proof {
            assert forall|k: int| 0 <= k < before.len() implies (#[trigger] before[k]).id != id by {
                if k >= pos {
                    if k > pos {
                        assert(before[pos as int].id < before[k].id);
                    }
                } else {
                    assert(notes@[k].id < id);
                }
            }
            assert(!holds(before, id));
            assert(by_id(before) =~= by_id(before).remove(id));
        }
        return None;
    }
    let was = notes.remove(pos);
    proof {
        lemma_by_id_at(before, pos as int);
        let after = note_views(notes@);
        assert(after =~= before.remove(pos as int));
        assert forall|i: int, j: int| 0 <= i < j < after.len() implies (#[trigger] after[i]).id < (
        #[trigger] after[j]).id by {
            let oi = if i < pos { i } else { i + 1 };
            let oj = if j < pos { j } else { j + 1 };
            assert(before[oi].id < before[oj].id);
        }
        let want = by_id(before).remove(id);
        assert forall|k: usize| by_id(after).contains_key(k) == want.contains_key(k) by {
            if by_id(after).contains_key(k) {
                lemma_by_id_found(after, k);
                let i = place_of(after, k);
                let oi = if i < pos { i } else { i + 1 };
                assert(before[oi].id == k);
                if k == id {
                    if oi < pos {
                        assert(before[oi].id < before[pos as int].id);
                    } else {
                        assert(before[pos as int].id < before[oi].id);
                    }
                }
            }
            if want.contains_key(k) {
                lemma_by_id_found(before, k);
                let i = place_of(before, k);
                let ni = if i < pos { i } else { i - 1 };
                assert(after[ni].id == k);
            }
        }
        assert forall|k: usize| by_id(after).contains_key(k) implies by_id(after)[k] == want[k] by {
            lemma_by_id_found(after, k);
            let i = place_of(after, k);
            let oi = if i < pos { i } else { i + 1 };
            assert(before[oi] == after[i]);
            lemma_by_id_at(before, oi);
        }
        assert(by_id(after) =~= want);
    }
    Some(was)
}

/// The cache of notes.
#[derive(Debug, PartialEq, Eq)]
pub struct Cache {
    notes: Vec<Note>,
}

impl View for Cache {
    type V = Map<usize, NoteView>;

    open spec fn view(&self) -> Map<usize, NoteView> {
        by_id(self.entries())
    }
}

impl Cache {
    /// The notes in the order in which they are kept and walked.
    pub closed spec fn entries(&self) -> Seq<NoteView> {
        note_views(self.notes@)
    }

    /// What holds of every cache: the identifiers are strictly ascending.
    #[verifier::type_invariant]
    pub closed spec fn wf(&self) -> bool {
        ids_ascending(note_views(self.notes@))
    }

    /// The notes of a cache are in ascending order of their identifiers.
    pub proof fn lemma_entries_ascending(&self)
        requires
            self.wf(),
        ensures
            ids_ascending(self.entries()),
    {
    }

    /// Two caches that hold the same notes under the same identifiers
    /// keep them alike, note for note.
    pub proof fn lemma_kept_alike(&self, other: &Cache)
        requires
            self.wf(),
            other.wf(),
            self@ == other@,
        ensures
            self.entries() == other.entries(),
    {
        lemma_ascending_lists_equal(self.entries(), other.entries());
    }

    /// The empty cache.
    pub fn new() -> (cache: Cache)
        ensures
            cache.entries() == Seq::<NoteView>::empty(),
            cache@ == Map::<usize, NoteView>::empty(),
            cache.wf(),
    {
        let cache = Cache { notes: Vec::new() };
        assert(cache.entries() =~= Seq::<NoteView>::empty());
        assert(cache@ =~= Map::<usize, NoteView>::empty());
        cache
    }

    /// The cache that holds the notes of an ascending list.
    pub(crate) fn from_ascending(notes: Vec<Note>) -> (cache: Cache)
        requires
            ids_ascending(note_views(notes@)),
        ensures
            cache.entries() == note_views(notes@),
            cache.wf(),
    {
        Cache { notes }
    }

    /// The cache that holds the notes of a list; of two notes with one
    /// identifier the later one stays.
    pub fn from_notes(list: Vec<Note>) -> (cache: Cache)
        ensures
            cache@ == collected(note_views(list@)),
            cache.wf(),
    {
        let mut notes: Vec<Note> = Vec::new();
        let mut i: usize = 0;
        let ghost all = note_views(list@);
        assert(all.take(0) =~= Seq::<NoteView>::empty());
        assert(by_id(note_views(notes@)) =~= Map::<usize, NoteView>::empty());
        while i < list.len()
            invariant
                i <= list.len(),
                all == note_views(list@),
                ids_ascending(note_views(notes@)),
                by_id(note_views(notes@)) == collected(all.take(i as int)),
            decreases list.len() - i,
        {
            put(&mut notes, list[i].clone());
            assert(all.take(i + 1).drop_last() =~= all.take(i as int));
            i += 1;
        }
        assert(all.take(list.len() as int) =~= all);
        Cache { notes }
    }

    /// How many notes the cache holds.
    pub fn len(&self) -> (n: usize)
        ensures
            n == self.entries().len(),
    {
        self.notes.len()
    }

    /// The notes, in ascending order of their identifiers.
    pub fn notes(&self) -> (notes: &Vec<Note>)
        ensures
            note_views(notes@) == self.entries(),
            ids_ascending(self.entries()),
            self.wf(),
    {
        proof {
            use_type_invariant(self);
        }
        &self.notes
    }

    /// Gives up the cache for its notes, in ascending order of their
    /// identifiers.
    pub fn into_notes(self) -> (notes: Vec<Note>)
        ensures
            note_views(notes@) == self.entries(),
            ids_ascending(self.entries()),
    {
        proof {
            use_type_invariant(&self);
        }
        self.notes
    }

    /// Whether the cache holds a note with the identifier `id`.
    pub fn contains_key(&self, id: usize) -> (r: bool)
        ensures
            r == self@.contains_key(id),
    {
        self.get(id).is_some()
    }

    /// The note with the identifier `id`.
    pub fn get(&self, id: usize) -> (r: Option<&Note>)
        ensures
            match r {
                Some(note) => self@.contains_key(id) && note@ == self@[id],
                None => !self@.contains_key(id),
            },
    {
        proof {
            use_type_invariant(self);
        }
        let ghost entries = self.entries();
        let pos = position(&self.notes, id);
        proof {
            assert forall|k: int| 0 <= k < entries.len() implies (#[trigger] entries[k]).id
                == self.notes@[k].id by {}
        }
        if pos < self.notes.len() && self.notes[pos].id == id {
            proof {
                lemma_by_id_at(entries, pos as int);
            }
            Some(&self.notes[pos])
        } else {
            proof {
                assert forall|k: int| 0 <= k < entries.len() implies (#[trigger] entries[k]).id
                    != id by {
                    if k >= pos {
                        if k > pos {
                            assert(entries[pos as int].id < entries[k].id);
                        }
                    } else {
                        assert(self.notes@[k].id < id);
                    }
                }
                assert(!holds(entries, id));
            }
            None
        }
    }

    /// Puts `note` into the cache under its identifier, in place of the
    /// note that was there, which is returned.
    pub fn insert(&mut self, note: Note) -> (replaced: Option<Note>)
        ensures
            final(self)@ == old(self)@.insert(note.id, note@),
            final(self).wf(),
            match replaced {
                Some(was) => old(self)@.contains_key(note.id) && was@ == old(self)@[note.id],
                None => !old(self)@.contains_key(note.id),
            },
    {
        proof {
            use_type_invariant(&*self);
        }
        let mut notes: Vec<Note> = Vec::new();
        core::mem::swap(&mut self.notes, &mut notes);
        let replaced = put(&mut notes, note);
        core::mem::swap(&mut self.notes, &mut notes);
        replaced
    }

    /// Takes the note with the identifier `id` out of the cache.
    pub fn remove(&mut self, id: usize) -> (removed: Option<Note>)
        ensures
            final(self)@ == old(self)@.remove(id),
            final(self).wf(),
            match removed {
                Some(was) => old(self)@.contains_key(id) && was@ == old(self)@[id],
                None => !old(self)@.contains_key(id),
            },
    {
        proof {
            use_type_invariant(&*self);
        }
        let mut notes: Vec<Note> = Vec::new();
        core::mem::swap(&mut self.notes, &mut notes);
        let removed = take_out(&mut notes, id);
        core::mem::swap(&mut self.notes, &mut notes);
        removed
    }
}

impl Clone for Cache {
    fn clone(&self) -> (r: Self)
        ensures
            r.entries() == self.entries(),
            r@ == self@,
    {
        proof {
            use_type_invariant(self);
        }
        let mut notes: Vec<Note> = Vec::new();
        let mut i: usize = 0;
        while i < self.notes.len()
            invariant
                i <= self.notes.len(),
                note_views(notes@) == self.entries().take(i as int),
            decreases self.notes.len() - i,
        {
            notes.push(self.notes[i].clone());
            assert(note_views(notes@) =~= self.entries().take(i as int).push(self.entries()[i as int]));
            assert(self.entries().take(i + 1) =~= self.entries().take(i as int).push(
                self.entries()[i as int],
            ));
            i += 1;
        }
        assert(self.entries().take(self.notes.len() as int) =~= self.entries());
        Cache { notes }
    }
}

/// The notes of a list by their identifiers, a later note taking the
/// place of an earlier one with the same identifier.
pub open spec fn collected(list: Seq<NoteView>) -> Map<usize, NoteView>
    decreases list.len(),
{
    if list.len() == 0 {
        Map::empty()
    } else {
        collected(list.drop_last()).insert(list.last().id, list.last())
    }
}

} // verus!
