//! Paths as sequences of components, and the relative path from one
//! directory to another path.
//!
//! A path is text in which `/` separates the components. Empty components
//! and `.` say nothing and are left out, except that a leading `/` is the
//! root and a leading `.` is kept as the current directory.

use vstd::prelude::*;
use crate::text::{
    chars_of, field_ranges, fields, lemma_fields_after_separator, lemma_fields_extended,
    lemma_fields_hold_no_separator, opt_text, string_of, string_of_range,
};

verus! {

/// One component of a path.
#[derive(Debug, PartialEq, Eq)]
pub enum Component {
    /// The root directory, `/`.
    RootDir,
    /// The current directory, `.`.
    CurDir,
    /// The parent directory, `..`.
    ParentDir,
    /// A file or directory name.
    Normal(String),
}

/// What a component stands for.
pub enum Segment {
    Root,
    Cur,
    Parent,
    Name(Seq<char>),
}

impl View for Component {
    type V = Segment;

    open spec fn view(&self) -> Segment {
        match self {
            Component::RootDir => Segment::Root,
            Component::CurDir => Segment::Cur,
            Component::ParentDir => Segment::Parent,
            Component::Normal(name) => Segment::Name(name@),
        }
    }
}

impl Clone for Component {
    fn clone(&self) -> (r: Self)
        ensures
            r@ == self@,
    {
        match self {
            Component::RootDir => Component::RootDir,
            Component::CurDir => Component::CurDir,
            Component::ParentDir => Component::ParentDir,
            Component::Normal(name) => Component::Normal(name.clone()),
        }
    }
}

impl Component {
    /// Whether two components are the same.
    pub fn same(&self, other: &Component) -> (r: bool)
        ensures
            r == (self@ == other@),
    {
        match (self, other) {
            (Component::RootDir, Component::RootDir) => true,
            (Component::CurDir, Component::CurDir) => true,
            (Component::ParentDir, Component::ParentDir) => true,
            (Component::Normal(a), Component::Normal(b)) => *a == *b,
            _ => false,
        }
    }
}

/// The segments that a list of components stands for.
pub open spec fn segments_of(comps: Seq<Component>) -> Seq<Segment> {
    Seq::new(comps.len(), |i: int| comps[i]@)
}

/// The pieces of a path between its `/` separators.
pub open spec fn pieces(s: Seq<char>) -> Seq<Seq<char>> {
    fields(s, '/')
}

/// The component that a piece between separators gives, if it gives one.
pub open spec fn piece_segment(piece: Seq<char>) -> Option<Segment> {
    if piece.len() == 0 || piece == seq!['.'] {
        None
    } else if piece == seq!['.', '.'] {
        Some(Segment::Parent)
    } else {
        Some(Segment::Name(piece))
    }
}

/// The components that a list of pieces gives, in order.
pub open spec fn piece_segments(ps: Seq<Seq<char>>) -> Seq<Segment>
    decreases ps.len(),
{
    if ps.len() == 0 {
        Seq::empty()
    } else {
        match piece_segment(ps.last()) {
            Some(seg) => piece_segments(ps.drop_last()).push(seg),
            None => piece_segments(ps.drop_last()),
        }
    }
}

/// A path is absolute when it starts at the root.
pub open spec fn is_absolute(s: Seq<char>) -> bool {
    s.len() > 0 && s[0] == '/'
}

/// A path starts in the current directory when it is `.` or begins `./`.
pub open spec fn starts_with_cur(s: Seq<char>) -> bool {
    s.len() > 0 && s[0] == '.' && (s.len() == 1 || s[1] == '/')
}

/// The components of a path.
pub open spec fn segments(s: Seq<char>) -> Seq<Segment> {
    let lead = if is_absolute(s) {
        seq![Segment::Root]
    } else if starts_with_cur(s) {
        seq![Segment::Cur]
    } else {
        Seq::empty()
    };
    lead + piece_segments(pieces(s))
}

/// The text of one component.
pub open spec fn segment_text(seg: Segment) -> Seq<char> {
    match seg {
        Segment::Root => seq!['/'],
        Segment::Cur => seq!['.'],
        Segment::Parent => seq!['.', '.'],
        Segment::Name(name) => name,
    }
}

/// The path written out: the components in order, a `/` between two of
/// them unless the text so far already ends in one. A root anywhere starts
/// the path afresh.
pub open spec fn rendered(segs: Seq<Segment>) -> Seq<char>
    decreases segs.len(),
{
    if segs.len() == 0 {
        Seq::empty()
    } else if segs.last() is Root {
        seq!['/']
    } else {
        let before = rendered(segs.drop_last());
        let joint = if before.len() == 0 || before.last() == '/' {
            before
        } else {
            before.push('/')
        };
        joint + segment_text(segs.last())
    }
}

fn push_piece(out: &mut Vec<Component>, chars: &Vec<char>, from: usize, to: usize)
    requires
        from <= to <= chars.len(),
    ensures
        segments_of(final(out)@) == (match piece_segment(chars@.subrange(from as int, to as int)) {
            Some(seg) => segments_of(old(out)@).push(seg),
            None => segments_of(old(out)@),
        }),
{
    let ghost piece = chars@.subrange(from as int, to as int);
    let n = to - from;
    if n == 0 {
    } else if n == 1 && chars[from] == '.' {
        assert(piece =~= seq!['.']);
    } else if n == 2 && chars[from] == '.' && chars[from + 1] == '.' {
        assert(piece =~= seq!['.', '.']);
        out.push(Component::ParentDir);
        assert(segments_of(out@) =~= segments_of(old(out)@).push(Segment::Parent));
    } else {
        assert(piece != seq!['.']) by {
            if piece == seq!['.'] {
                assert(piece.len() == 1 && piece[0] == '.');
            }
        }
        assert(piece != seq!['.', '.']) by {
            if piece == seq!['.', '.'] {
                assert(piece.len() == 2 && piece[0] == '.' && piece[1] == '.');
            }
        }
        let name = string_of_range(chars, from, to);
        out.push(Component::Normal(name));
        assert(segments_of(out@) =~= segments_of(old(out)@).push(Segment::Name(piece)));
    }
}

/// Splits a path into its components.
pub fn components(path: &str) -> (comps: Vec<Component>)
    ensures
        segments_of(comps@) == segments(path@),
{
    let chars = chars_of(path);
    let n = chars.len();
    let mut out: Vec<Component> = Vec::new();
    if n > 0 && chars[0] == '/' {
        out.push(Component::RootDir);
    } else if n > 0 && chars[0] == '.' && (n == 1 || chars[1] == '/') {
        out.push(Component::CurDir);
    }
    let ghost lead = segments_of(out@);
    let ghost all = pieces(chars@);
    let ranges = field_ranges(&chars, '/');
    let mut k: usize = 0;
    assert(all.take(0) =~= Seq::<Seq<char>>::empty());
    assert(segments_of(out@) =~= lead + piece_segments(all.take(0)));
    while k < ranges.len()
        invariant
            k <= ranges.len(),
            all == pieces(chars@),
            ranges.len() == all.len(),
            forall|j: int|
                0 <= j < ranges.len() ==> {
                    &&& (#[trigger] ranges[j]).0 <= ranges[j].1 <= chars.len()
                    &&& chars@.subrange(ranges[j].0 as int, ranges[j].1 as int) == all[j]
                },
            segments_of(out@) == lead + piece_segments(all.take(k as int)),
        decreases ranges.len() - k,
    {
        let (from, to) = ranges[k];
        let ghost before = segments_of(out@);
        push_piece(&mut out, &chars, from, to);
        proof {
            assert(all.take(k + 1).drop_last() =~= all.take(k as int));
            assert(all.take(k + 1).last() == all[k as int]);
            match piece_segment(all[k as int]) {
                Some(seg) => {
                    assert(before.push(seg) =~= lead + piece_segments(all.take(k as int)).push(seg));
                },
                None => {},
            }
        }
        k += 1;
    }
    assert(all.take(ranges.len() as int) =~= all);
    out
}

/// Writes a list of components as a path.
pub fn render(comps: &Vec<Component>) -> (path: String)
    ensures
        path@ == rendered(segments_of(comps@)),
{
    let mut out: Vec<char> = Vec::new();
    let mut i: usize = 0;
    let ghost segs = segments_of(comps@);
    assert(segs.take(0) =~= Seq::<Segment>::empty());
    while i < comps.len()
        invariant
            i <= comps.len(),
            segs == segments_of(comps@),
            out@ == rendered(segs.take(i as int)),
        decreases comps.len() - i,
    {
        proof {
            assert(segs.take(i + 1).drop_last() =~= segs.take(i as int));
            assert(segs.take(i + 1).last() == comps@[i as int]@);
        }
        match &comps[i] {
            Component::RootDir => {
                out = Vec::new();
                out.push('/');
                assert(out@ =~= seq!['/']);
            },
            other => {
                let ghost before = out@;
                if out.len() > 0 && out[out.len() - 1] != '/' {
                    out.push('/');
                }
                let ghost joint = out@;
                match other {
                    Component::CurDir => {
                        out.push('.');
                        assert(out@ =~= joint + seq!['.']);
                    },
                    Component::ParentDir => {
                        out.push('.');
                        out.push('.');
                        assert(out@ =~= joint + seq!['.', '.']);
                    },
                    Component::Normal(name) => {
                        let chars = chars_of(name.as_str());
                        let mut k: usize = 0;
                        while k < chars.len()
                            invariant
                                k <= chars.len(),
                                out@ == joint + chars@.take(k as int),
                            decreases chars.len() - k,
                        {
                            out.push(chars[k]);
                            assert(chars@.take(k + 1) =~= chars@.take(k as int).push(
                                chars@[k as int],
                            ));
                            k += 1;
                        }
                        assert(chars@.take(chars.len() as int) =~= chars@);
                    },
                    Component::RootDir => {},
                }
            },
        }
        i += 1;
    }
    assert(segs.take(comps.len() as int) =~= segs);
    string_of(&out)
}

/// `n` steps up.
pub open spec fn parents(n: nat) -> Seq<Segment> {
    Seq::new(n, |i: int| Segment::Parent)
}

/// The segments of `rest`, if there are any, behind those of `front`.
pub open spec fn behind(front: Seq<Segment>, rest: Option<Seq<Segment>>) -> Option<Seq<Segment>> {
    match rest {
        Some(r) => Some(front + r),
        None => None,
    }
}

/// The way from `base` to `path`, walking both in step.
///
/// Components that both begin with are passed over, as long as nothing has
/// been written yet (`started` is false). Where the path ends first, each
/// component left in the base is one step up. Where the base ends first,
/// what is left of the path follows. A `.` in the base takes the path's
/// component as it is and goes on; a `..` in the base has no answer. At
/// any other difference the way goes up once for each component left in
/// the base and then down what is left of the path.
pub open spec fn relative_walk(path: Seq<Segment>, base: Seq<Segment>, started: bool) -> Option<
    Seq<Segment>,
>
    decreases path.len(),
{
    if path.len() == 0 {
        Some(parents(base.len()))
    } else if base.len() == 0 {
        Some(path)
    } else if !started && path[0] == base[0] {
        relative_walk(path.skip(1), base.skip(1), false)
    } else if base[0] is Cur {
        behind(seq![path[0]], relative_walk(path.skip(1), base.skip(1), true))
    } else if base[0] is Parent {
        None
    } else {
        Some(parents(base.len()) + path)
    }
}

/// Whether a list of components starts at the root.
pub open spec fn rooted(segs: Seq<Segment>) -> bool {
    segs.len() > 0 && segs[0] is Root
}

/// The way from the directory `base` to `path`, in components. Where only
/// one of the two starts at the root there is no way, unless it is `path`,
/// which is then the answer as it stands.
pub open spec fn relative_segments(path: Seq<Segment>, base: Seq<Segment>) -> Option<
    Seq<Segment>,
> {
    if rooted(path) != rooted(base) {
        if rooted(path) {
            Some(path)
        } else {
            None
        }
    } else {
        relative_walk(path, base, false)
    }
}

/// The way from the directory `base` to `path`, as text.
pub open spec fn relative_from(path: Seq<char>, base: Seq<char>) -> Option<Seq<char>> {
    if is_absolute(path) != is_absolute(base) {
        if is_absolute(path) {
            Some(path)
        } else {
            None
        }
    } else {
        match relative_walk(segments(path), segments(base), false) {
            Some(way) => Some(rendered(way)),
            None => None,
        }
    }
}

/// The segments of an optional list of components.
pub open spec fn opt_segments(comps: Option<Vec<Component>>) -> Option<Seq<Segment>> {
    match comps {
        Some(v) => Some(segments_of(v@)),
        None => None,
    }
}

fn is_root_first(comps: &Vec<Component>) -> (r: bool)
    ensures
        r == rooted(segments_of(comps@)),
{
    if comps.len() == 0 {
        false
    } else {
        match &comps[0] {
            Component::RootDir => true,
            _ => false,
        }
    }
}

fn push_rest(out: &mut Vec<Component>, comps: &Vec<Component>, from: usize)
    requires
        from <= comps.len(),
    ensures
        segments_of(final(out)@) == segments_of(old(out)@) + segments_of(comps@).skip(from as int),
{
    let mut i: usize = from;
    assert(segments_of(out@) =~= segments_of(old(out)@) + segments_of(comps@).subrange(
        from as int,
        i as int,
    ));
    while i < comps.len()
        invariant
            from <= i <= comps.len(),
            segments_of(out@) == segments_of(old(out)@) + segments_of(comps@).subrange(
                from as int,
                i as int,
            ),
        decreases comps.len() - i,
    {
        let ghost before = out@;
        out.push(comps[i].clone());
        assert(segments_of(out@) =~= segments_of(before).push(comps@[i as int]@));
        assert(segments_of(comps@).subrange(from as int, i + 1) =~= segments_of(comps@).subrange(
            from as int,
            i as int,
        ).push(comps@[i as int]@));
        i += 1;
    }
    assert(segments_of(comps@).subrange(from as int, comps.len() as int) =~= segments_of(
        comps@,
    ).skip(from as int));
}

fn push_parents(out: &mut Vec<Component>, count: usize)
    ensures
        segments_of(final(out)@) == segments_of(old(out)@) + parents(count as nat),
{
    let mut k: usize = 0;
    assert(segments_of(out@) =~= segments_of(old(out)@) + parents(0));
    while k < count
        invariant
            k <= count,
            segments_of(out@) == segments_of(old(out)@) + parents(k as nat),
        decreases count - k,
    {
        let ghost before = out@;
        out.push(Component::ParentDir);
        assert(segments_of(out@) =~= segments_of(before).push(Segment::Parent));
        assert(parents((k + 1) as nat) =~= parents(k as nat).push(Segment::Parent));
        k += 1;
    }
}

/// The way from the directory `base` to `path`, in components.
pub fn relative_components(path: &Vec<Component>, base: &Vec<Component>) -> (r: Option<
    Vec<Component>,
>)
    ensures
        opt_segments(r) == relative_segments(segments_of(path@), segments_of(base@)),
{
    let ghost p = segments_of(path@);
    let ghost b = segments_of(base@);
    let mut out: Vec<Component> = Vec::new();
    if is_root_first(path) != is_root_first(base) {
        if is_root_first(path) {
            push_rest(&mut out, path, 0);
            assert(segments_of(out@) =~= p);
            return Some(out);
        } else {
            return None;
        }
    }
    let mut i: usize = 0;
    let mut parted = false;
    assert(p.skip(0) =~= p && b.skip(0) =~= b);
    assert(behind(segments_of(out@), relative_walk(p, b, false)) =~= relative_walk(p, b, false));
    while !parted && i < path.len() && i < base.len()
        invariant
            p == segments_of(path@),
            b == segments_of(base@),
            rooted(p) == rooted(b),
            i <= path.len(),
            i <= base.len(),
            relative_walk(p, b, false) == behind(
                segments_of(out@),
                relative_walk(p.skip(i as int), b.skip(i as int), out.len() > 0),
            ),
            parted ==> relative_walk(p.skip(i as int), b.skip(i as int), out.len() > 0) == Some(
                parents((base.len() - i) as nat) + p.skip(i as int),
            ),
        decreases (if parted { 0int } else { 1int }) + path.len() - i,
    {
        let ghost ps = p.skip(i as int);
        let ghost bs = b.skip(i as int);
        proof {
            assert(ps[0] == path@[i as int]@ && bs[0] == base@[i as int]@);
            assert(ps.skip(1) =~= p.skip(i + 1));
            assert(bs.skip(1) =~= b.skip(i + 1));
        }
        if out.len() == 0 && path[i].same(&base[i]) {
            i += 1;
        } else {
            match &base[i] {
                Component::CurDir => {
                    let ghost before = segments_of(out@);
                    out.push(path[i].clone());
                    proof {
                        assert(segments_of(out@) =~= before + seq![ps[0]]);
                        let inner = relative_walk(ps.skip(1), bs.skip(1), true);
                        if inner is Some {
                            assert(before + (seq![ps[0]] + inner->0) =~= (before + seq![ps[0]])
                                + inner->0);
                        }
                    }
                    i += 1;
                },
                Component::ParentDir => {
                    return None;
                },
                _ => {
                    parted = true;
                },
            }
        }
    }
    proof {
        let ps = p.skip(i as int);
        let bs = b.skip(i as int);
        if !parted {
            if i == path.len() {
                assert(ps =~= Seq::<Segment>::empty());
                assert(parents(bs.len()) + ps =~= parents(bs.len()));
            } else {
                assert(bs =~= Seq::<Segment>::empty());
                assert(parents(0) + ps =~= ps);
            }
        }
    }
    let ghost before = segments_of(out@);
    push_parents(&mut out, base.len() - i);
    push_rest(&mut out, path, i);
    assert(segments_of(out@) =~= before + (parents((base.len() - i) as nat) + p.skip(i as int)));
    Some(out)
}

/// Pieces between separators give neither the root nor the current
/// directory.
pub proof fn lemma_pieces_give_no_root(ps: Seq<Seq<char>>)
    ensures
        forall|i: int|
            0 <= i < piece_segments(ps).len() ==> !(#[trigger] piece_segments(ps)[i] is Root) && !(
            piece_segments(ps)[i] is Cur),
    decreases ps.len(),
{
    if ps.len() > 0 {
        lemma_pieces_give_no_root(ps.drop_last());
    }
}

/// The components of a path start at the root exactly when the path is
/// absolute.
pub proof fn lemma_rooted_iff_absolute(s: Seq<char>)
    ensures
        rooted(segments(s)) == is_absolute(s),
{
    lemma_pieces_give_no_root(pieces(s));
    let body = piece_segments(pieces(s));
    if !is_absolute(s) && !starts_with_cur(s) {
        assert(segments(s) =~= body);
    }
}

/// The way to `path` from a directory given in components, as text.
pub open spec fn relative_text(path: Seq<char>, folder: Seq<Segment>) -> Option<Seq<char>> {
    if is_absolute(path) != rooted(folder) {
        if is_absolute(path) {
            Some(path)
        } else {
            None
        }
    } else {
        match relative_walk(segments(path), folder, false) {
            Some(way) => Some(rendered(way)),
            None => None,
        }
    }
}

/// The way to `path` from a directory given in components.
pub fn relative_to_folder(path: &str, folder: &Vec<Component>) -> (r: Option<String>)
    ensures
        opt_text(r) == relative_text(path@, segments_of(folder@)),
{
    let p = components(path);
    proof {
        lemma_rooted_iff_absolute(path@);
    }
    if is_root_first(&p) != is_root_first(folder) {
        if is_root_first(&p) {
            Some(path.to_owned())
        } else {
            None
        }
    } else {
        match relative_components(&p, folder) {
            Some(way) => Some(render(&way)),
            None => None,
        }
    }
}

/// The way from the directory `base` to `path`.
///
/// Both are taken as they are written: neither is looked up anywhere, and
/// `..` inside them is not resolved.
pub fn path_relative_from(path: &str, base: &str) -> (r: Option<String>)
    ensures
        opt_text(r) == relative_from(path@, base@),
{
    let folder = components(base);
    proof {
        lemma_rooted_iff_absolute(base@);
    }
    relative_to_folder(path, &folder)
}

/// The directory that holds the last component of a path: the path
/// without that component. The root and the empty path stay as they are.
pub open spec fn parent_of(segs: Seq<Segment>) -> Seq<Segment> {
    if segs.len() > 0 && !(segs.last() is Root) {
        segs.drop_last()
    } else {
        segs
    }
}

/// The path without its last component.
pub fn parent(comps: Vec<Component>) -> (r: Vec<Component>)
    ensures
        segments_of(r@) == parent_of(segments_of(comps@)),
{
    let mut comps = comps;
    let ghost before = segments_of(comps@);
    let n = comps.len();
    if n > 0 {
        let at_root = match &comps[n - 1] {
            Component::RootDir => true,
            _ => false,
        };
        if !at_root {
            comps.pop();
            assert(segments_of(comps@) =~= before.drop_last());
        }
    }
    comps
}

/// A path taken from a directory: the path itself where it starts at the
/// root, else the directory followed by the path.
pub open spec fn joined(folder: Seq<Segment>, path: Seq<Segment>) -> Seq<Segment> {
    if rooted(path) {
        path
    } else {
        folder + path
    }
}

/// The path `path` taken from the directory `folder`.
pub fn join(folder: Vec<Component>, path: &Vec<Component>) -> (r: Vec<Component>)
    ensures
        segments_of(r@) == joined(segments_of(folder@), segments_of(path@)),
{
    let mut out = if is_root_first(path) {
        Vec::new()
    } else {
        folder
    };
    let ghost before = segments_of(out@);
    push_rest(&mut out, path, 0);
    assert(segments_of(path@).skip(0) =~= segments_of(path@));
    assert(Seq::<Segment>::empty() + segments_of(path@) =~= segments_of(path@));
    out
}

/// Where a body that is written relative to the directory of the file
/// `file` lies: the path of that directory followed by the body, or the
/// body itself where it is absolute.
pub open spec fn beside(file: Seq<char>, body: Seq<char>) -> Seq<char> {
    rendered(joined(parent_of(segments(file)), segments(body)))
}

/// The path of `body` taken from the directory that holds `file`.
pub fn path_beside(file: &str, body: &str) -> (r: String)
    ensures
        r@ == beside(file@, body@),
{
    let folder = parent(components(file));
    let path = components(body);
    render(&join(folder, &path))
}

/// A path as a canonical absolute path has it: the root, then names only.
pub open spec fn canonical(segs: Seq<Segment>) -> bool {
    &&& rooted(segs)
    &&& forall|i: int| 1 <= i < segs.len() ==> #[trigger] segs[i] is Name
}

/// How many components two paths begin with in common.
pub open spec fn shared_len(a: Seq<Segment>, b: Seq<Segment>) -> nat
    decreases a.len(),
{
    if a.len() > 0 && b.len() > 0 && a[0] == b[0] {
        1 + shared_len(a.skip(1), b.skip(1))
    } else {
        0
    }
}

/// Where one component leads from the place `at`: the root leads to the
/// root, `.` stays, a name goes down, and `..` goes up from a name, stays
/// at the root, and is kept where there is nothing to go up from.
pub open spec fn stepped(at: Seq<Segment>, seg: Segment) -> Seq<Segment> {
    match seg {
        Segment::Root => seq![Segment::Root],
        Segment::Cur => at,
        Segment::Name(_) => at.push(seg),
        Segment::Parent => if at.len() > 0 && at.last() is Name {
            at.drop_last()
        } else if at.len() > 0 && at.last() is Root {
            at
        } else {
            at.push(seg)
        },
    }
}

/// Where the relative path `way` leads from the directory `base`.
pub open spec fn resolved(base: Seq<Segment>, way: Seq<Segment>) -> Seq<Segment>
    decreases way.len(),
{
    if way.len() == 0 {
        base
    } else {
        resolved(stepped(base, way[0]), way.skip(1))
    }
}

proof fn lemma_shared_prefix(a: Seq<Segment>, b: Seq<Segment>)
    ensures
        shared_len(a, b) <= a.len(),
        shared_len(a, b) <= b.len(),
        a.take(shared_len(a, b) as int) == b.take(shared_len(a, b) as int),
    decreases a.len(),
{
    if a.len() > 0 && b.len() > 0 && a[0] == b[0] {
        lemma_shared_prefix(a.skip(1), b.skip(1));
        let k = shared_len(a.skip(1), b.skip(1)) as int;
        assert(a.take(k + 1) =~= seq![a[0]] + a.skip(1).take(k));
        assert(b.take(k + 1) =~= seq![b[0]] + b.skip(1).take(k));
    } else {
        assert(a.take(0) =~= b.take(0));
    }
}

/// Where the base holds neither `.` nor `..`, the way from it to a path
/// goes up once for each of its components beyond those that the two
/// share, and then down the rest of the path.
pub proof fn lemma_walk_of_plain_base(path: Seq<Segment>, base: Seq<Segment>)
    requires
        forall|i: int| 0 <= i < base.len() ==> !(#[trigger] base[i] is Cur) && !(base[i] is Parent),
    ensures
        shared_len(path, base) <= base.len(),
        shared_len(path, base) <= path.len(),
        relative_walk(path, base, false) == Some(
            parents((base.len() - shared_len(path, base)) as nat) + path.skip(
                shared_len(path, base) as int,
            ),
        ),
    decreases path.len(),
{
    lemma_shared_prefix(path, base);
    if path.len() == 0 {
        assert(parents(base.len()) + path.skip(0) =~= parents(base.len()));
    } else if base.len() == 0 {
        assert(parents(0) + path.skip(0) =~= path);
    } else if path[0] == base[0] {
        assert forall|i: int| 0 <= i < base.skip(1).len() implies !(#[trigger] base.skip(1)[i] is Cur)
            && !(base.skip(1)[i] is Parent) by {
            assert(base.skip(1)[i] == base[i + 1]);
        }
        lemma_walk_of_plain_base(path.skip(1), base.skip(1));
        let k = shared_len(path.skip(1), base.skip(1));
        assert(path.skip(1).skip(k as int) =~= path.skip(k as int + 1));
    } else {
        assert(base[0] == base[0]);
        assert(path.skip(0) =~= path);
    }
}

proof fn lemma_resolved_concat(base: Seq<Segment>, first: Seq<Segment>, second: Seq<Segment>)
    ensures
        resolved(base, first + second) == resolved(resolved(base, first), second),
    decreases first.len(),
{
    if first.len() == 0 {
        assert(first + second =~= second);
    } else {
        assert((first + second).skip(1) =~= first.skip(1) + second);
        lemma_resolved_concat(stepped(base, first[0]), first.skip(1), second);
    }
}

proof fn lemma_resolved_up(base: Seq<Segment>, n: nat)
    requires
        n <= base.len(),
        forall|i: int| base.len() - n <= i < base.len() ==> #[trigger] base[i] is Name,
    ensures
        resolved(base, parents(n)) == base.take(base.len() - n),
    decreases n,
{
    if n == 0 {
        assert(base.take(base.len() as int) =~= base);
    } else {
        assert(parents(n).skip(1) =~= parents((n - 1) as nat));
        assert(base.last() is Name);
        lemma_resolved_up(base.drop_last(), (n - 1) as nat);
        assert(base.drop_last().take(base.len() - n) =~= base.take(base.len() - n));
    }
}

proof fn lemma_resolved_down(base: Seq<Segment>, names: Seq<Segment>)
    requires
        forall|i: int| 0 <= i < names.len() ==> #[trigger] names[i] is Name,
    ensures
        resolved(base, names) == base + names,
    decreases names.len(),
{
    if names.len() == 0 {
        assert(base + names =~= base);
    } else {
        assert forall|i: int| 0 <= i < names.skip(1).len() implies #[trigger] names.skip(1)[i] is Name by {
            assert(names.skip(1)[i] == names[i + 1]);
        }
        lemma_resolved_down(base.push(names[0]), names.skip(1));
        assert(base.push(names[0]) + names.skip(1) =~= base + names);
    }
}

/// A path with its `.` and `..` followed: where it leads from nowhere.
pub open spec fn normal(segs: Seq<Segment>) -> Seq<Segment> {
    resolved(Seq::empty(), segs)
}

/// A canonical path is its own normal form.
pub proof fn lemma_normal_of_canonical(segs: Seq<Segment>)
    requires
        canonical(segs),
    ensures
        normal(segs) == segs,
{
    let names = segs.skip(1);
    assert(seq![Segment::Root] + names =~= segs);
    lemma_resolved_concat(Seq::empty(), seq![Segment::Root], names);
    assert(seq![Segment::Root].skip(1) =~= Seq::<Segment>::empty());
    assert(resolved(Seq::empty(), seq![Segment::Root]) == seq![Segment::Root]) by {
        assert(resolved(seq![Segment::Root], Seq::<Segment>::empty()) == seq![Segment::Root]);
    }
    assert forall|i: int| 0 <= i < names.len() implies #[trigger] names[i] is Name by {
        assert(names[i] == segs[i + 1]);
    }
    lemma_resolved_down(seq![Segment::Root], names);
}

/// From a canonical directory there is a way to every absolute path, and
/// following it from the directory leads to where the path leads: to the
/// path itself where it is canonical.
pub proof fn lemma_relative_round_trip(path: Seq<Segment>, base: Seq<Segment>)
    requires
        rooted(path),
        canonical(base),
    ensures
        relative_segments(path, base) is Some,
        resolved(base, relative_segments(path, base)->0) == normal(path),
        canonical(path) ==> resolved(base, relative_segments(path, base)->0) == path,
{
    assert forall|i: int| 0 <= i < base.len() implies !(#[trigger] base[i] is Cur) && !(base[i] is Parent) by {
        if i >= 1 {
            assert(base[i] is Name);
        }
    }
    lemma_walk_of_plain_base(path, base);
    lemma_shared_prefix(path, base);
    let k = shared_len(path, base);
    assert(k >= 1);
    let up = parents((base.len() - k) as nat);
    let down = path.skip(k as int);
    let shared = base.take(k as int);
    lemma_resolved_concat(base, up, down);
    lemma_resolved_up(base, (base.len() - k) as nat);
    assert(canonical(shared)) by {
        assert(shared[0] == base[0]);
        assert forall|i: int| 1 <= i < shared.len() implies #[trigger] shared[i] is Name by {
            assert(shared[i] == base[i]);
        }
    }
    lemma_normal_of_canonical(shared);
    assert(shared + down =~= path);
    lemma_resolved_concat(Seq::empty(), shared, down);
    if canonical(path) {
        lemma_normal_of_canonical(path);
    }
}

/// From a directory that a path lies under, the way to the path never goes
/// up: it is the names that the path has beyond the directory, and following
/// it from the directory leads to the path.
pub proof fn lemma_relative_from_ancestor(path: Seq<Segment>, base: Seq<Segment>)
    requires
        canonical(path),
        canonical(base),
        base.len() <= path.len(),
        path.take(base.len() as int) == base,
    ensures
        relative_segments(path, base) == Some(path.skip(base.len() as int)),
        forall|i: int|
            0 <= i < path.len() - base.len() ==> #[trigger] path.skip(base.len() as int)[i] is Name,
        resolved(base, path.skip(base.len() as int)) == path,
{
    lemma_relative_round_trip(path, base);
    assert forall|i: int| 0 <= i < base.len() implies !(#[trigger] base[i] is Cur) && !(base[i] is Parent) by {
        if i >= 1 {
            assert(base[i] is Name);
        }
    }
    lemma_walk_of_plain_base(path, base);
    lemma_shared_all(path, base);
    assert(parents(0) + path.skip(base.len() as int) =~= path.skip(base.len() as int));
    assert forall|i: int| 0 <= i < path.len() - base.len() implies #[trigger] path.skip(
        base.len() as int,
    )[i] is Name by {
        assert(path.skip(base.len() as int)[i] == path[i + base.len()]);
    }
}

proof fn lemma_shared_all(path: Seq<Segment>, base: Seq<Segment>)
    requires
        base.len() <= path.len(),
        path.take(base.len() as int) == base,
    ensures
        shared_len(path, base) == base.len(),
    decreases base.len(),
{
    if base.len() > 0 {
        assert(path.take(base.len() as int)[0] == path[0]);
        assert(path.skip(1).take(base.len() - 1) =~= base.skip(1)) by {
            assert forall|i: int| 0 <= i < base.len() - 1 implies path.skip(1).take(base.len() - 1)[i]
                == base.skip(1)[i] by {
                assert(path.take(base.len() as int)[i + 1] == path[i + 1]);
            }
        }
        lemma_shared_all(path.skip(1), base.skip(1));
    }
}

/// A name as a path can hold it: not empty, without separator, and
/// neither `.` nor `..`.
pub open spec fn plain_name(name: Seq<char>) -> bool {
    name.len() > 0 && !name.contains('/') && name != seq!['.'] && name != seq!['.', '.']
}

/// A relative way of steps up and plain names only.
pub open spec fn tidy(way: Seq<Segment>) -> bool {
    forall|i: int|
        0 <= i < way.len() ==> match #[trigger] way[i] {
            Segment::Parent => true,
            Segment::Name(name) => plain_name(name),
            _ => false,
        }
}

/// The names among the components of a path are plain.
pub proof fn lemma_names_are_plain(s: Seq<char>)
    ensures
        forall|i: int|
            0 <= i < segments(s).len() ==> (#[trigger] segments(s)[i] matches Segment::Name(name)
                ==> plain_name(name)),
{
    lemma_fields_hold_no_separator(s, '/');
    lemma_piece_names_are_plain(pieces(s));
    let body = piece_segments(pieces(s));
    assert forall|i: int| 0 <= i < segments(s).len() implies (#[trigger] segments(s)[i] matches Segment::Name(
        name,
    ) ==> plain_name(name)) by {
        if is_absolute(s) || starts_with_cur(s) {
            if i > 0 {
                assert(segments(s)[i] == body[i - 1]);
            }
        } else {
            assert(segments(s) =~= body);
        }
    }
}

proof fn lemma_piece_names_are_plain(ps: Seq<Seq<char>>)
    requires
        forall|k: int| 0 <= k < ps.len() ==> !(#[trigger] ps[k]).contains('/'),
    ensures
        forall|i: int|
            0 <= i < piece_segments(ps).len() ==> (#[trigger] piece_segments(ps)[i] matches Segment::Name(
                name,
            ) ==> plain_name(name)),
    decreases ps.len(),
{
    if ps.len() > 0 {
        assert forall|k: int| 0 <= k < ps.drop_last().len() implies !(#[trigger] ps.drop_last()[k]).contains(
            '/',
        ) by {
            assert(ps.drop_last()[k] == ps[k]);
        }
        lemma_piece_names_are_plain(ps.drop_last());
        assert(!ps[ps.len() - 1].contains('/'));
    }
}

/// Writing out a tidy way and splitting the text again gives the way back.
pub proof fn lemma_render_then_split(way: Seq<Segment>)
    requires
        tidy(way),
    ensures
        segments(rendered(way)) == way,
        way.len() > 0 ==> rendered(way).len() > 0 && rendered(way).last() != '/',
    decreases way.len(),
{
    lemma_render_of_tidy(way);
    let text = rendered(way);
    if way.len() == 0 {
        assert(pieces(text) =~= seq![Seq::<char>::empty()]);
        assert(pieces(text).drop_last() =~= Seq::<Seq<char>>::empty());
        assert(segments(text) =~= way);
    } else {
        let first = segment_text(way[0]);
        assert(text[0] == text.take(first.len() as int)[0]);
        assert(!is_absolute(text)) by {
            if first[0] == '/' {
                assert(first.contains('/'));
            }
        }
        assert(!starts_with_cur(text)) by {
            if text[0] == '.' && text.len() > 1 && text[1] == '/' {
                if first.len() > 1 {
                    assert(text.take(first.len() as int)[1] == text[1]);
                    assert(first[1] == '/');
                    assert(first.contains('/'));
                } else {
                    assert(first =~= seq!['.']);
                }
            }
            if text[0] == '.' && text.len() == 1 {
                assert(first =~= seq!['.']);
            }
        }
        assert(segments(text) =~= piece_segments(pieces(text)));
    }
}

/// What the text of a tidy way looks like: it begins with the text of the
/// first step, followed by a separator if more follows; it does not end in
/// a separator; and its pieces give the way back.
proof fn lemma_render_of_tidy(way: Seq<Segment>)
    requires
        tidy(way),
    ensures
        piece_segments(pieces(rendered(way))) == way,
        way.len() > 0 ==> {
            let first = segment_text(way[0]);
            &&& first.len() > 0
            &&& !first.contains('/')
            &&& rendered(way).len() >= first.len()
            &&& rendered(way).take(first.len() as int) == first
            &&& rendered(way).len() > first.len() ==> rendered(way)[first.len() as int] == '/'
            &&& rendered(way).last() != '/'
        },
    decreases way.len(),
{
    let text = rendered(way);
    if way.len() == 0 {
        assert(pieces(text) =~= seq![Seq::<char>::empty()]);
        assert(pieces(text).drop_last() =~= Seq::<Seq<char>>::empty());
        assert(piece_segments(pieces(text).drop_last()) =~= way);
    } else {
        let last = way.last();
        let t = segment_text(last);
        let init = way.drop_last();
        let before = rendered(init);
        assert(way[way.len() - 1] == last);
        assert(tidy(init)) by {
            assert forall|i: int| 0 <= i < init.len() implies match #[trigger] init[i] {
                Segment::Parent => true,
                Segment::Name(name) => plain_name(name),
                _ => false,
            } by {
                assert(init[i] == way[i]);
            }
        }
        lemma_render_of_tidy(init);
        lemma_text_of_tidy_step(last);
        assert(t.last() != '/') by {
            if t[t.len() - 1] == '/' {
                assert(t.contains('/'));
            }
        }
        if init.len() == 0 {
            assert(before =~= Seq::<char>::empty());
            assert(text =~= t);
            lemma_fields_extended(Seq::empty(), t, '/');
            assert(Seq::<char>::empty() + t =~= t);
            assert(pieces(Seq::empty()) =~= seq![Seq::<char>::empty()]);
            assert(pieces(text) =~= seq![t]);
            assert(pieces(text).drop_last() =~= Seq::<Seq<char>>::empty());
            assert(pieces(text).last() == t);
            assert(way =~= seq![last]);
            assert(piece_segments(pieces(text).drop_last()) =~= Seq::<Segment>::empty());
            assert(piece_segments(pieces(text)) =~= Seq::<Segment>::empty().push(last));
            assert(text.take(t.len() as int) =~= t);
        } else {
            let joint = before.push('/');
            assert(text == joint + t);
            lemma_fields_after_separator(before, '/');
            lemma_fields_extended(joint, t, '/');
            assert(Seq::<char>::empty() + t =~= t);
            assert(pieces(joint).drop_last() =~= pieces(before));
            assert(pieces(text) =~= pieces(before).push(t));
            assert(pieces(text).drop_last() =~= pieces(before));
            assert(piece_segments(pieces(text)) =~= init.push(last));
            assert(init.push(last) =~= way);
            let first = segment_text(way[0]);
            assert(init[0] == way[0]);
            assert(text.take(first.len() as int) =~= before.take(first.len() as int));
            if before.len() > first.len() {
                assert(text[first.len() as int] == before[first.len() as int]);
            } else {
                assert(text[first.len() as int] == '/');
            }
            assert(text.last() == t.last());
        }
    }
}

proof fn lemma_text_of_tidy_step(seg: Segment)
    requires
        seg is Parent || (seg matches Segment::Name(name) && plain_name(name)),
    ensures
        segment_text(seg).len() > 0,
        !segment_text(seg).contains('/'),
        piece_segment(segment_text(seg)) == Some(seg),
{
    let t = segment_text(seg);
    if seg is Parent {
        assert(t.len() == 2 && t[0] == '.' && t[1] == '.');
        if t.contains('/') {
            let i = choose|i: int| 0 <= i < t.len() && t[i] == '/';
        }
        assert(t != seq!['.']) by {
            if t == seq!['.'] {
                assert(seq!['.'].len() == 1);
            }
        }
    }
}

/// The way to an absolute path from a canonical directory, taken as
/// text: there is one, and its components lead from the directory to where
/// the path leads, which for a canonical path is the path itself.
pub proof fn lemma_relative_text_round_trip(path: Seq<char>, folder: Seq<Segment>)
    requires
        is_absolute(path),
        canonical(folder),
    ensures
        relative_text(path, folder) is Some,
        segments(relative_text(path, folder)->0) == relative_segments(segments(path), folder)->0,
        resolved(folder, segments(relative_text(path, folder)->0)) == normal(segments(path)),
        canonical(segments(path)) ==> resolved(folder, segments(relative_text(path, folder)->0))
            == segments(path),
{
    let a = segments(path);
    let b = folder;
    lemma_rooted_iff_absolute(path);
    lemma_relative_round_trip(a, b);
    assert forall|i: int| 0 <= i < b.len() implies !(#[trigger] b[i] is Cur) && !(b[i] is Parent) by {
        if i >= 1 {
            assert(b[i] is Name);
        }
    }
    lemma_walk_of_plain_base(a, b);
    let k = shared_len(a, b);
    let way = parents((b.len() - k) as nat) + a.skip(k as int);
    assert(k >= 1);
    lemma_names_are_plain(path);
    assert(tidy(way)) by {
        assert forall|i: int| 0 <= i < way.len() implies match #[trigger] way[i] {
            Segment::Parent => true,
            Segment::Name(name) => plain_name(name),
            _ => false,
        } by {
            if i >= b.len() - k {
                let j = i - (b.len() - k) + k;
                assert(way[i] == a[j]);
                lemma_pieces_give_no_root(pieces(path));
                assert(a[j] == piece_segments(pieces(path))[j - 1]);
                assert(!(a[j] is Root) && !(a[j] is Cur));
            }
        }
    }
    lemma_render_then_split(way);
}

/// The way from a canonical absolute path to an absolute path, taken as
/// text: there is one, and its components lead from the base to where the
/// path leads, which for a canonical path is the path itself.
pub proof fn lemma_relative_from_round_trip(path: Seq<char>, base: Seq<char>)
    requires
        is_absolute(path),
        canonical(segments(base)),
    ensures
        relative_from(path, base) is Some,
        segments(relative_from(path, base)->0) == relative_segments(segments(path), segments(base))->0,
        resolved(segments(base), segments(relative_from(path, base)->0)) == normal(segments(path)),
        canonical(segments(path)) ==> resolved(
            segments(base),
            segments(relative_from(path, base)->0),
        ) == segments(path),
{
    lemma_rooted_iff_absolute(base);
    lemma_relative_text_round_trip(path, segments(base));
}

/// The directory of a canonical path is canonical.
pub proof fn lemma_parent_canonical(segs: Seq<Segment>)
    requires
        canonical(segs),
    ensures
        canonical(parent_of(segs)),
{
    let up = parent_of(segs);
    assert forall|i: int| 1 <= i < up.len() implies #[trigger] up[i] is Name by {
        assert(up[i] == segs[i]);
    }
    if segs.len() > 1 {
        assert(segs[segs.len() - 1] is Name);
        assert(up[0] == segs[0]);
    }
}

/// From a canonical directory that a canonical path lies under, the way
/// to the path, taken as text, holds no step up: its components are the
/// names that the path has beyond the directory.
pub proof fn lemma_relative_from_ancestor_text(path: Seq<char>, base: Seq<char>)
    requires
        canonical(segments(path)),
        canonical(segments(base)),
        segments(base).len() <= segments(path).len(),
        segments(path).take(segments(base).len() as int) == segments(base),
    ensures
        relative_from(path, base) is Some,
        segments(relative_from(path, base)->0) == segments(path).skip(segments(base).len() as int),
        forall|i: int|
            0 <= i < segments(relative_from(path, base)->0).len() ==> #[trigger] segments(
                relative_from(path, base)->0,
            )[i] is Name,
        resolved(segments(base), segments(relative_from(path, base)->0)) == segments(path),
{
    lemma_rooted_iff_absolute(path);
    lemma_rooted_iff_absolute(base);
    lemma_relative_from_round_trip(path, base);
    lemma_relative_from_ancestor(segments(path), segments(base));
}

} // verus!
