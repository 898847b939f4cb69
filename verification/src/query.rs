//! The query: up to four criteria that a note must meet all at once.

use vstd::prelude::*;
use crate::note::{body_passes, id_passes, tags_pass, title_passes, Note, NoteView};
use crate::text::opt_text;
use crate::tags::{texts, Tags};

verus! {

/// A query over notes. A criterion that is `None` is absent, and every
/// note meets it.
#[derive(Debug, PartialEq, Eq)]
pub struct Query {
    /// A regular expression that the title must match.
    pub title: Option<String>,
    /// Body paths, of which the note must have one. Each is what resolving
    /// a path that the user gave has produced, or `None` where that failed.
    pub bodies: Option<Vec<Option<String>>>,
    /// Identifiers in hexadecimal, of which the note must have one.
    pub ids: Option<Vec<String>>,
    /// Tags, all of which the note must have.
    pub tags: Option<Tags>,
}

/// What a query asks for.
pub struct QueryView {
    pub title: Option<Seq<char>>,
    pub bodies: Option<Seq<Option<Seq<char>>>>,
    pub ids: Option<Seq<Seq<char>>>,
    pub tags: Option<Set<Seq<char>>>,
}

/// The texts of a list of optional strings.
pub open spec fn optional_texts(list: Seq<Option<String>>) -> Seq<Option<Seq<char>>> {
    Seq::new(list.len(), |i: int| opt_text(list[i]))
}

impl View for Query {
    type V = QueryView;

    open spec fn view(&self) -> QueryView {
        QueryView {
            title: opt_text(self.title),
            bodies: match self.bodies {
                Some(list) => Some(optional_texts(list@)),
                None => None,
            },
            ids: match self.ids {
                Some(list) => Some(texts(list@)),
                None => None,
            },
            tags: match self.tags {
                Some(tags) => Some(tags@),
                None => None,
            },
        }
    }
}

/// Whether one of the body filters passes the note.
pub open spec fn some_body_passes(note: NoteView, bodies: Seq<Option<Seq<char>>>) -> bool {
    exists|i: int| 0 <= i < bodies.len() && body_passes(note, #[trigger] bodies[i])
}

/// Whether one of the identifier filters passes the note.
pub open spec fn some_id_passes(note: NoteView, ids: Seq<Seq<char>>) -> bool {
    exists|i: int| 0 <= i < ids.len() && id_passes(note, #[trigger] ids[i])
}

/// Whether the note meets the title criterion.
pub open spec fn title_met(q: QueryView, note: NoteView) -> bool {
    q.title matches Some(pattern) ==> title_passes(note, pattern)
}

/// Whether the note meets the body criterion.
pub open spec fn body_met(q: QueryView, note: NoteView) -> bool {
    q.bodies matches Some(bodies) ==> some_body_passes(note, bodies)
}

/// Whether the note meets the identifier criterion.
pub open spec fn id_met(q: QueryView, note: NoteView) -> bool {
    q.ids matches Some(ids) ==> some_id_passes(note, ids)
}

/// Whether the note meets the tag criterion.
pub open spec fn tags_met(q: QueryView, note: NoteView) -> bool {
    q.tags matches Some(tags) ==> tags_pass(note, tags)
}

/// Whether the note meets the criteria on body, identifier and tags.
pub open spec fn rest_met(q: QueryView, note: NoteView) -> bool {
    body_met(q, note) && id_met(q, note) && tags_met(q, note)
}

/// Whether a note matches a query: it meets every criterion.
pub open spec fn passes(q: QueryView, note: NoteView) -> bool {
    title_met(q, note) && rest_met(q, note)
}

/// The test that a query puts to each note.
pub open spec fn passing(q: QueryView) -> spec_fn(NoteView) -> bool {
    |note: NoteView| passes(q, note)
}

/// Whether two lists hold the same values, in whatever order and number.
pub open spec fn same_values<A>(a: Seq<A>, b: Seq<A>) -> bool {
    forall|x: A| a.contains(x) <==> b.contains(x)
}

/// Whether two optional lists are both absent or hold the same values.
pub open spec fn same_choices<A>(a: Option<Seq<A>>, b: Option<Seq<A>>) -> bool {
    match (a, b) {
        (Some(x), Some(y)) => same_values(x, y),
        (None, None) => true,
        _ => false,
    }
}

/// A query says the same of every note however its alternatives are
/// ordered or repeated: two queries with the same title pattern, the same
/// set of tags, and the same body paths and identifiers in any order pass
/// the same notes.
pub proof fn lemma_order_independent(a: QueryView, b: QueryView, note: NoteView)
    requires
        a.title == b.title,
        a.tags == b.tags,
        same_choices(a.bodies, b.bodies),
        same_choices(a.ids, b.ids),
    ensures
        passes(a, note) == passes(b, note),
{
    if a.bodies is Some {
        let x = a.bodies->0;
        let y = b.bodies->0;
        if some_body_passes(note, x) {
            let i = choose|i: int| 0 <= i < x.len() && body_passes(note, #[trigger] x[i]);
            assert(x.contains(x[i]));
            let j = choose|j: int| 0 <= j < y.len() && y[j] == x[i];
            assert(body_passes(note, y[j]));
        }
        if some_body_passes(note, y) {
            let i = choose|i: int| 0 <= i < y.len() && body_passes(note, #[trigger] y[i]);
            assert(y.contains(y[i]));
            let j = choose|j: int| 0 <= j < x.len() && x[j] == y[i];
            assert(body_passes(note, x[j]));
        }
    }
    if a.ids is Some {
        let x = a.ids->0;
        let y = b.ids->0;
        if some_id_passes(note, x) {
            let i = choose|i: int| 0 <= i < x.len() && id_passes(note, #[trigger] x[i]);
            assert(x.contains(x[i]));
            let j = choose|j: int| 0 <= j < y.len() && y[j] == x[i];
            assert(id_passes(note, y[j]));
        }
        if some_id_passes(note, y) {
            let i = choose|i: int| 0 <= i < y.len() && id_passes(note, #[trigger] y[i]);
            assert(y.contains(y[i]));
            let j = choose|j: int| 0 <= j < x.len() && x[j] == y[i];
            assert(id_passes(note, x[j]));
        }
    }
}

/// Two such queries find the same notes in every list.
pub proof fn lemma_same_selection(a: QueryView, b: QueryView, list: Seq<NoteView>)
    requires
        a.title == b.title,
        a.tags == b.tags,
        same_choices(a.bodies, b.bodies),
        same_choices(a.ids, b.ids),
    ensures
        list.filter(passing(a)) == list.filter(passing(b)),
    decreases list.len(),
{
    reveal(Seq::filter);
    if list.len() > 0 {
        lemma_same_selection(a, b, list.drop_last());
        lemma_order_independent(a, b, list.last());
    }
}

impl Query {
    /// The query without any criterion: every note matches it.
    pub fn new() -> (q: Query)
        ensures
            q@ == (QueryView { title: None, bodies: None, ids: None, tags: None }),
            forall|note: NoteView| passes(q@, note),
    {
        Query { title: None, bodies: None, ids: None, tags: None }
    }

    /// Whether `note` meets the criteria on body, identifier and tags.
    pub fn matches_rest(&self, note: &Note) -> (r: bool)
        ensures
            r == rest_met(self@, note@),
    {
        let body_ok = match &self.bodies {
            Some(bodies) => {
                let mut hit = false;
                let mut i: usize = 0;
                while i < bodies.len()
                    invariant
                        i <= bodies.len(),
                        hit == some_body_passes(note@, optional_texts(bodies@).take(i as int)),
                    decreases bodies.len() - i,
                {
                    let here = note.filter_body(&bodies[i]);
                    proof {
                        let all = optional_texts(bodies@);
                        let was = all.take(i as int);
                        let now = all.take(i + 1);
                        assert(now[i as int] == opt_text(bodies@[i as int]));
                        if some_body_passes(note@, was) {
                            let k = choose|k: int|
                                0 <= k < was.len() && body_passes(note@, #[trigger] was[k]);
                            assert(now[k] == was[k]);
                        }
                        if some_body_passes(note@, now) {
                            let k = choose|k: int|
                                0 <= k < now.len() && body_passes(note@, #[trigger] now[k]);
                            if k < i {
                                assert(was[k] == now[k]);
                            }
                        }
                    }
                    hit = hit || here;
                    i += 1;
                }
                assert(optional_texts(bodies@).take(bodies.len() as int) =~= optional_texts(
                    bodies@,
                ));
                hit
            },
            None => true,
        };
        let id_ok = match &self.ids {
            Some(ids) => {
                let mut hit = false;
                let mut i: usize = 0;
                while i < ids.len()
                    invariant
                        i <= ids.len(),
                        hit == some_id_passes(note@, texts(ids@).take(i as int)),
                    decreases ids.len() - i,
                {
                    let here = note.filter_id(ids[i].as_str());
                    proof {
                        let all = texts(ids@);
                        let was = all.take(i as int);
                        let now = all.take(i + 1);
                        assert(now[i as int] == ids@[i as int]@);
                        if some_id_passes(note@, was) {
                            let k = choose|k: int|
                                0 <= k < was.len() && id_passes(note@, #[trigger] was[k]);
                            assert(now[k] == was[k]);
                        }
                        if some_id_passes(note@, now) {
                            let k = choose|k: int|
                                0 <= k < now.len() && id_passes(note@, #[trigger] now[k]);
                            if k < i {
                                assert(was[k] == now[k]);
                            }
                        }
                    }
                    hit = hit || here;
                    i += 1;
                }
                assert(texts(ids@).take(ids.len() as int) =~= texts(ids@));
                hit
            },
            None => true,
        };
        let tags_ok = match &self.tags {
            Some(tags) => note.filter_tags(tags.clone()),
            None => true,
        };
        body_ok && id_ok && tags_ok
    }

    /// Whether `note` matches the query, given in `title_ok` whether it
    /// meets the title criterion.
    pub fn matches_given(&self, note: &Note, title_ok: bool) -> (r: bool)
        ensures
            r == (title_ok && rest_met(self@, note@)),
    {
        let rest_ok = self.matches_rest(note);
        title_ok && rest_ok
    }

    /// Whether `note` matches the query.
    pub fn matches(&self, note: &Note) -> (r: bool)
        ensures
            r == passes(self@, note@),
    {
        let title_ok = match &self.title {
            Some(pattern) => note.filter_title(pattern.as_str()),
            None => true,
        };
        self.matches_given(note, title_ok)
    }
}

} // verus!
