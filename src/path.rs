//! Splitting URL paths into segments.

use vstd::prelude::*;
use vstd::string::*;

use crate::route::RouteError;

verus! {

/// The pieces of `s` between `sep` separators, in order, empty pieces
/// included. There is always at least one piece.
pub open spec fn split_on(s: Seq<char>, sep: char) -> Seq<Seq<char>>
    decreases s.len(),
{
    if s.len() == 0 {
        seq![Seq::empty()]
    } else {
        let init = split_on(s.drop_last(), sep);
        if s.last() == sep {
            init.push(Seq::empty())
        } else {
            init.update(init.len() - 1, init.last().push(s.last()))
        }
    }
}

pub proof fn lemma_split_nonempty(s: Seq<char>, sep: char)
    ensures
        split_on(s, sep).len() >= 1,
    decreases s.len(),
{
    if s.len() > 0 {
        lemma_split_nonempty(s.drop_last(), sep);
    }
}

pub open spec fn texts_view(v: Seq<String>) -> Seq<Seq<char>> {
    v.map_values(|p: String| p@)
}

/// Splits `s` on every `sep`, keeping empty pieces.
pub fn split_chars(s: &str, sep: char) -> (r: Vec<String>)
    ensures
        texts_view(r@) == split_on(s@, sep),
{
    let n = s.unicode_len();
    let mut pieces: Vec<String> = Vec::new();
    let mut start: usize = 0;
    let mut i: usize = 0;
    assert(s@.take(0) =~= Seq::<char>::empty());
    assert(pieces@.map_values(|p: String| p@).push(s@.subrange(0, 0))
        =~= split_on(s@.take(0), sep));
    while i < n
        invariant
            n == s@.len(),
            start <= i <= n,
            pieces@.map_values(|p: String| p@).push(s@.subrange(start as int, i as int))
                == split_on(s@.take(i as int), sep),
        decreases n - i,
    {
        let c = s.get_char(i);
        let ghost prev = s@.take(i as int);
        assert(s@.take(i + 1).drop_last() == prev);
        assert(s@.take(i + 1).last() == c);
        proof {
            lemma_split_nonempty(prev, sep);
        }
        if c == sep {
            let piece = s.substring_char(start, i).to_owned();
            pieces.push(piece);
            start = i + 1;
            assert(s@.subrange(start as int, i + 1) == Seq::<char>::empty());
            assert(pieces@.map_values(|p: String| p@).push(s@.subrange(start as int, i + 1))
                =~= split_on(s@.take(i + 1), sep));
        } else {
            assert(s@.subrange(start as int, i + 1) == s@.subrange(start as int, i as int).push(c));
            assert(pieces@.map_values(|p: String| p@).push(s@.subrange(start as int, i + 1))
                =~= split_on(s@.take(i + 1), sep));
        }
        i = i + 1;
    }
    let last = s.substring_char(start, n).to_owned();
    pieces.push(last);
    assert(s@.take(n as int) == s@);
    assert(pieces@.map_values(|p: String| p@) =~= split_on(s@, sep));
    pieces
}

/// `p` without an empty first piece and without an empty last piece: the
/// separators at the two ends of a path.
pub open spec fn drop_edge_empties(p: Seq<Seq<char>>) -> Seq<Seq<char>> {
    let a = if p.len() > 0 && p[0].len() == 0 {
        p.drop_first()
    } else {
        p
    };
    if a.len() > 0 && a.last().len() == 0 {
        a.drop_last()
    } else {
        a
    }
}

/// Whether two texts are the same.
pub fn same_text(a: &str, b: &str) -> (r: bool)
    ensures
        r == (a@ == b@),
{
    let n = a.unicode_len();
    if n != b.unicode_len() {
        return false;
    }
    let mut i: usize = 0;
    while i < n
        invariant
            n == a@.len() == b@.len(),
            i <= n,
            a@.take(i as int) == b@.take(i as int),
        decreases n - i,
    {
        if a.get_char(i) != b.get_char(i) {
            assert(a@[i as int] != b@[i as int]);
            return false;
        }
        assert(a@.take(i + 1) == a@.take(i as int).push(a@[i as int]));
        assert(b@.take(i + 1) == b@.take(i as int).push(b@[i as int]));
        i = i + 1;
    }
    assert(a@.take(n as int) == a@);
    assert(b@.take(n as int) == b@);
    true
}

/// The segments of a path, in order: `/a/b/` and `a/b` give `a`, `b`; `/` and
/// the empty path give none. Interior empty segments are kept.
pub open spec fn path_pieces(s: Seq<char>) -> Seq<Seq<char>> {
    drop_edge_empties(split_on(s, '/'))
}

/// Splits a path into its segments, as [`path_pieces`] says.
pub fn split_path(path: &str) -> (r: Vec<String>)
    ensures
        r@.map_values(|p: String| p@) == path_pieces(path@),
{
    let mut pieces = split_chars(path, '/');
    let ghost all = pieces@.map_values(|p: String| p@);
    proof {
        lemma_split_nonempty(path@, '/');
    }
    if pieces[0].as_str().is_empty() {
        pieces.remove(0);
        assert(pieces@.map_values(|p: String| p@) =~= all.drop_first());
    }
    let ghost a = pieces@.map_values(|p: String| p@);
    if pieces.len() > 0 && pieces[pieces.len() - 1].as_str().is_empty() {
        pieces.pop();
        assert(pieces@.map_values(|p: String| p@) =~= a.drop_last());
    }
    pieces
}

/// One segment of a route pattern.
pub enum Segment {
    /// Matches a request segment of exactly this text.
    Literal(String),
    /// Matches any one non-empty request segment and binds it to this name.
    Param(String),
}

/// What a [`Segment`] stands for.
pub enum SegmentView {
    Literal(Seq<char>),
    Param(Seq<char>),
}

impl View for Segment {
    type V = SegmentView;

    open spec fn view(&self) -> SegmentView {
        match self {
            Segment::Literal(t) => SegmentView::Literal(t@),
            Segment::Param(n) => SegmentView::Param(n@),
        }
    }
}

/// A piece that starts with `:` is a parameter named by the rest of it; any
/// other piece is literal.
pub open spec fn classify(t: Seq<char>) -> SegmentView {
    if t.len() > 0 && t[0] == ':' {
        SegmentView::Param(t.drop_first())
    } else {
        SegmentView::Literal(t)
    }
}

/// A `:` with no name after it.
pub open spec fn is_empty_param(t: Seq<char>) -> bool {
    t == seq![':']
}

/// The pattern that a route path registers, or `None` where one of its
/// segments is a parameter without a name.
pub open spec fn pattern_of(s: Seq<char>) -> Option<Seq<SegmentView>> {
    if has_empty_param(path_pieces(s)) {
        None
    } else {
        Some(path_pieces(s).map_values(|t: Seq<char>| classify(t)))
    }
}

pub open spec fn has_empty_param(pieces: Seq<Seq<char>>) -> bool {
    exists|i: int| 0 <= i < pieces.len() && is_empty_param(#[trigger] pieces[i])
}

pub open spec fn segments_view(v: Seq<Segment>) -> Seq<SegmentView> {
    v.map_values(|g: Segment| g@)
}

fn classify_piece(t: String) -> (r: Result<Segment, RouteError>)
    ensures
        is_empty_param(t@) ==> r == Err::<Segment, RouteError>(RouteError::EmptyParameterName),
        !is_empty_param(t@) ==> (r matches Ok(g) && g@ == classify(t@)),
{
    let n = t.as_str().unicode_len();
    if n > 0 && t.as_str().get_char(0) == ':' {
        if n == 1 {
            assert(t@ =~= seq![':']);
            Err(RouteError::EmptyParameterName)
        } else {
            let name = t.as_str().substring_char(1, n).to_owned();
            assert(name@ =~= t@.drop_first());
            Ok(Segment::Param(name))
        }
    } else {
        Ok(Segment::Literal(t))
    }
}

/// Splits a route path into the segments of its pattern.
pub fn tokenize(path: &str) -> (r: Result<Vec<Segment>, RouteError>)
    ensures
        match pattern_of(path@) {
            Some(p) => r matches Ok(v) && segments_view(v@) == p,
            None => r == Err::<Vec<Segment>, RouteError>(RouteError::EmptyParameterName),
        },
{
    let pieces = split_path(path);
    let ghost ps = path_pieces(path@);
    let mut out: Vec<Segment> = Vec::new();
    let mut i: usize = 0;
    while i < pieces.len()
        invariant
            pieces@.map_values(|p: String| p@) == ps,
            i <= pieces.len(),
            forall|k: int| 0 <= k < i ==> !is_empty_param(#[trigger] ps[k]),
            ps == path_pieces(path@),
            segments_view(out@) =~= ps.take(i as int).map_values(|t: Seq<char>| classify(t)),
        decreases pieces.len() - i,
    {
        assert(ps[i as int] == pieces@[i as int]@);
        let ghost before = segments_view(out@);
        let piece = pieces[i].clone();
        assert(piece@ == ps[i as int]);
        match classify_piece(piece) {
            Ok(g) => {
                out.push(g);
                assert(segments_view(out@) =~= before.push(g@));
                assert(ps.take(i + 1).map_values(|t: Seq<char>| classify(t))
                    =~= ps.take(i as int).map_values(|t: Seq<char>| classify(t)).push(classify(ps[i as int])));
            },
            Err(e) => {
                assert(is_empty_param(ps[i as int]));
                assert(e == RouteError::EmptyParameterName);
                return Err(e);
            },
        }
        i = i + 1;
    }
    assert(ps.take(i as int) == ps);
    Ok(out)
}

} // verus!
