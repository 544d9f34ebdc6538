//! Laws of registration and resolution, proved over the trie model.

use vstd::prelude::*;

use crate::path::{classify, is_empty_param, path_pieces, pattern_of, split_on, SegmentView};
use crate::route::{
    add_route, has_param_conflict, is_prefix, lemma_prefix_nodes, param_child, register_error,
    resolve_spec, trie_wf, valid_segment, walk, RouteError,
};
use crate::server::{empty_trie, registered, route_spec, ServerView};

verus! {

/// The bindings that resolving the text of a pattern gives: each parameter
/// `name` is bound to its own segment `:name`, in order.
pub open spec fn own_bindings(pat: Seq<SegmentView>) -> Seq<(Seq<char>, Seq<char>)>
    decreases pat.len(),
{
    if pat.len() == 0 {
        Seq::empty()
    } else {
        let b = own_bindings(pat.drop_last());
        match pat.last() {
            SegmentView::Param(n) => b.push((n, seq![':'] + n)),
            SegmentView::Literal(_) => b,
        }
    }
}

/// The segments of a registered pattern are valid.
pub proof fn lemma_pattern_valid(path: Seq<char>)
    requires
        pattern_of(path) is Some,
    ensures
        forall|k: int|
            0 <= k < pattern_of(path)->Some_0.len() ==> valid_segment(
                #[trigger] pattern_of(path)->Some_0[k],
            ),
        pattern_of(path)->Some_0.len() == path_pieces(path).len(),
{
    let pieces = path_pieces(path);
    let pat = pattern_of(path)->Some_0;
    assert forall|k: int| 0 <= k < pat.len() implies valid_segment(#[trigger] pat[k]) by {
        assert(pat[k] == classify(pieces[k]));
        assert(!is_empty_param(pieces[k]));
        if pieces[k].len() == 1 && pieces[k][0] == ':' {
            assert(pieces[k] =~= seq![':']);
        }
    }
}

proof fn lemma_walk_own_path<H>(m: Map<Seq<SegmentView>, Option<H>>, path: Seq<char>, i: int)
    requires
        trie_wf(m),
        pattern_of(path) is Some,
        m.contains_key(pattern_of(path)->Some_0),
        0 <= i <= path_pieces(path).len(),
    ensures
        walk(
            m,
            pattern_of(path)->Some_0.take(i),
            path_pieces(path).skip(i),
            own_bindings(pattern_of(path)->Some_0.take(i)),
        ) == Some((pattern_of(path)->Some_0, own_bindings(pattern_of(path)->Some_0))),
    decreases path_pieces(path).len() - i,
{
    let pieces = path_pieces(path);
    let pat = pattern_of(path)->Some_0;
    lemma_pattern_valid(path);
    if i == pieces.len() {
        assert(pat.take(i) == pat);
        assert(pieces.skip(i) == Seq::<Seq<char>>::empty());
    } else {
        lemma_walk_own_path(m, path, i + 1);
        let cur = pat.take(i);
        let rest = pieces.skip(i);
        let piece = pieces[i];
        assert(rest[0] == piece);
        assert(rest.drop_first() == pieces.skip(i + 1));
        assert(pat[i] == classify(piece));
        assert(pat.take(i + 1) == cur.push(pat[i]));
        assert(pat.take(i + 1).drop_last() == cur);
        lemma_prefix_nodes(m, pat, i + 1);
        match pat[i] {
            SegmentView::Literal(t) => {
                assert(piece == t);
            },
            SegmentView::Param(n) => {
                assert(piece =~= seq![':'] + n);
                let lit = cur.push(SegmentView::Literal(piece));
                if m.contains_key(lit) {
                    assert(valid_segment(lit[i]));
                    assert(false);
                }
                assert(m.contains_key(cur.push(SegmentView::Param(n))));
                let c = choose|c: Seq<char>| #[trigger] m.contains_key(cur.push(SegmentView::Param(c)));
                assert(c == n);
                assert(param_child(m, cur) == Some(n));
            },
        }
    }
}

/// Resolving the text of a registered route gives its own handler, with each
/// of its parameters bound to its own segment: literal children are taken
/// first, and no literal segment of a trie starts with `:`.
pub proof fn lemma_resolve_own_path<H>(m: Map<Seq<SegmentView>, Option<H>>, path: Seq<char>, h: H)
    requires
        trie_wf(m),
        pattern_of(path) is Some,
        m.contains_key(pattern_of(path)->Some_0),
        m[pattern_of(path)->Some_0] == Some(h),
    ensures
        resolve_spec(m, path_pieces(path)) == Some((h, own_bindings(pattern_of(path)->Some_0))),
{
    lemma_walk_own_path(m, path, 0);
    assert(pattern_of(path)->Some_0.take(0) == Seq::<SegmentView>::empty());
    assert(path_pieces(path).skip(0) == path_pieces(path));
}

/// Registering a route keeps a trie well formed.
pub proof fn lemma_registered_wf<H>(m: Map<Seq<SegmentView>, Option<H>>, path: Seq<char>, h: H)
    requires
        trie_wf(m),
    ensures
        trie_wf(registered(m, path, h)),
{
    if register_error(m, path) is None {
        let pat = pattern_of(path)->Some_0;
        let n = add_route(m, pat, h);
        lemma_pattern_valid(path);
        assert(n.contains_key(Seq::empty()));
        assert forall|q: Seq<SegmentView>| #[trigger] n.contains_key(q) && q.len() > 0 implies n.contains_key(
            q.drop_last(),
        ) by {
            if !m.contains_key(q) {
                assert(q.drop_last() == pat.take(q.len() - 1));
            }
        }
        assert forall|q: Seq<SegmentView>, x: Seq<char>, y: Seq<char>|
            #[trigger] n.contains_key(q.push(SegmentView::Param(x))) && #[trigger] n.contains_key(
                q.push(SegmentView::Param(y)),
            ) implies x == y by {
            let qx = q.push(SegmentView::Param(x));
            let qy = q.push(SegmentView::Param(y));
            let k = q.len() as int;
            assert(qx.drop_last() == q && qy.drop_last() == q);
            if !m.contains_key(qx) && !m.contains_key(qy) {
                assert(qx[k] == pat[k] && qy[k] == pat[k]);
            } else if !m.contains_key(qx) {
                assert(pat.take(k) == q);
                assert(qx[k] == pat[k]);
                assert(!has_conflict_at(m, pat, k, y));
            } else if !m.contains_key(qy) {
                assert(pat.take(k) == q);
                assert(qy[k] == pat[k]);
                assert(!has_conflict_at(m, pat, k, x));
            }
        }
        assert forall|q: Seq<SegmentView>, k: int|
            #[trigger] n.contains_key(q) && 0 <= k < q.len() implies valid_segment(#[trigger] q[k]) by {
            if !m.contains_key(q) {
                assert(q[k] == pat[k]);
            }
        }
    }
}

spec fn has_conflict_at<H>(m: Map<Seq<SegmentView>, Option<H>>, pat: Seq<SegmentView>, k: int, y: Seq<char>) -> bool {
    0 <= k < pat.len() && pat[k] is Param && y != pat[k]->Param_0 && m.contains_key(
        pat.take(k).push(SegmentView::Param(y)),
    )
}

/// Round trip: once a route path is registered, resolving that same path
/// gives the handler just registered, each parameter bound to its own
/// segment (no binding where the path has no parameter).
pub proof fn lemma_round_trip<H>(m: Map<Seq<SegmentView>, Option<H>>, path: Seq<char>, h: H)
    requires
        trie_wf(m),
        register_error(m, path) is None,
    ensures
        resolve_spec(registered(m, path, h), path_pieces(path)) == Some(
            (h, own_bindings(pattern_of(path)->Some_0)),
        ),
{
    lemma_registered_wf(m, path, h);
    let pat = pattern_of(path)->Some_0;
    assert(pat.take(pat.len() as int) =~= pat);
    assert(is_prefix(pat, pat));
    lemma_resolve_own_path(registered(m, path, h), path, h);
}

/// A pattern without parameters.
pub open spec fn all_literal(pat: Seq<SegmentView>) -> bool {
    forall|k: int| 0 <= k < pat.len() ==> #[trigger] pat[k] is Literal
}

/// Literal precedence: a registered route without parameters resolves to its
/// own handler with no bindings, whatever parametric routes share its nodes.
pub proof fn lemma_literal_precedence<H>(m: Map<Seq<SegmentView>, Option<H>>, path: Seq<char>, h: H)
    requires
        trie_wf(m),
        pattern_of(path) is Some,
        all_literal(pattern_of(path)->Some_0),
        m.contains_key(pattern_of(path)->Some_0),
        m[pattern_of(path)->Some_0] == Some(h),
    ensures
        resolve_spec(m, path_pieces(path)) == Some((h, Seq::<(Seq<char>, Seq<char>)>::empty())),
{
    lemma_resolve_own_path(m, path, h);
    lemma_no_own_bindings(pattern_of(path)->Some_0);
}

proof fn lemma_no_own_bindings(pat: Seq<SegmentView>)
    requires
        all_literal(pat),
    ensures
        own_bindings(pat) == Seq::<(Seq<char>, Seq<char>)>::empty(),
    decreases pat.len(),
{
    if pat.len() > 0 {
        assert(pat.last() is Literal);
        lemma_no_own_bindings(pat.drop_last());
    }
}

/// Duplicates are rejected: registering a route path a second time fails with
/// `DuplicateRoute` and leaves the trie as the first registration made it.
pub proof fn lemma_duplicate_rejected<H>(
    m: Map<Seq<SegmentView>, Option<H>>,
    path: Seq<char>,
    h1: H,
    h2: H,
)
    requires
        trie_wf(m),
        register_error(m, path) is None,
    ensures
        register_error(registered(m, path, h1), path) == Some(RouteError::DuplicateRoute),
        registered(registered(m, path, h1), path, h2) == registered(m, path, h1),
        resolve_spec(registered(registered(m, path, h1), path, h2), path_pieces(path)) == Some(
            (h1, own_bindings(pattern_of(path)->Some_0)),
        ),
{
    let pat = pattern_of(path)->Some_0;
    let m1 = registered(m, path, h1);
    lemma_registered_wf(m, path, h1);
    assert(pat.take(pat.len() as int) =~= pat);
    assert(is_prefix(pat, pat));
    if register_error(m1, path) == Some(RouteError::ConflictingParameterName) {
        let (k, y) = choose|k: int, y: Seq<char>|
            0 <= k < pat.len() && pat[k] is Param && y != pat[k]->Param_0 && #[trigger] m1.contains_key(
                pat.take(k).push(SegmentView::Param(y)),
            );
        lemma_prefix_nodes(m1, pat, k + 1);
        assert(pat.take(k + 1) == pat.take(k).push(pat[k]));
    }
    lemma_round_trip(m, path, h1);
}

/// Conflicting parameter names are rejected: once a route path is registered,
/// a route path whose pattern agrees with it up to a parameter of another
/// name at the same place fails with `ConflictingParameterName`, and the trie
/// stays as it was.
pub proof fn lemma_conflicting_param_rejected<H>(
    m: Map<Seq<SegmentView>, Option<H>>,
    path1: Seq<char>,
    path2: Seq<char>,
    k: int,
    h1: H,
    h2: H,
)
    requires
        trie_wf(m),
        register_error(m, path1) is None,
        pattern_of(path2) is Some,
        0 <= k < pattern_of(path1)->Some_0.len(),
        k < pattern_of(path2)->Some_0.len(),
        pattern_of(path1)->Some_0.take(k) == pattern_of(path2)->Some_0.take(k),
        pattern_of(path1)->Some_0[k] is Param,
        pattern_of(path2)->Some_0[k] is Param,
        pattern_of(path1)->Some_0[k] != pattern_of(path2)->Some_0[k],
    ensures
        register_error(registered(m, path1, h1), path2) == Some(
            RouteError::ConflictingParameterName,
        ),
        registered(registered(m, path1, h1), path2, h2) == registered(m, path1, h1),
{
    let pat1 = pattern_of(path1)->Some_0;
    let pat2 = pattern_of(path2)->Some_0;
    let m1 = registered(m, path1, h1);
    let y = pat1[k]->Param_0;
    assert(pat1.take(k + 1) == pat2.take(k).push(SegmentView::Param(y)));
    assert(is_prefix(pat1.take(k + 1), pat1));
    assert(m1.contains_key(pat2.take(k).push(SegmentView::Param(y))));
}

/// A prefix is not a route: where one route path is all that was registered,
/// resolving a path whose pattern is a proper prefix of it finds nothing.
pub proof fn lemma_prefix_not_route<H>(path: Seq<char>, prefix: Seq<char>, h: H)
    requires
        register_error(empty_trie::<H>(), path) is None,
        pattern_of(prefix) is Some,
        is_prefix(pattern_of(prefix)->Some_0, pattern_of(path)->Some_0),
        pattern_of(prefix)->Some_0 != pattern_of(path)->Some_0,
    ensures
        resolve_spec(registered(empty_trie::<H>(), path, h), path_pieces(prefix)) is None,
{
    let m = empty_trie::<H>();
    let m1 = registered(m, path, h);
    assert(trie_wf(m)) by {
        assert forall|q: Seq<SegmentView>| #[trigger] m.contains_key(q) implies q.len() == 0 by {}
    }
    lemma_registered_wf(m, path, h);
    lemma_walk_own_path(m1, prefix, 0);
    let sp = pattern_of(prefix)->Some_0;
    assert(sp.take(0) == Seq::<SegmentView>::empty());
    assert(path_pieces(prefix).skip(0) == path_pieces(prefix));
    assert(m1[sp] is None);
}

/// The root path `/` has no segments: registering it puts the handler at the
/// root, and resolving it gives that handler with no bindings.
pub proof fn lemma_root_round_trip<H>(m: Map<Seq<SegmentView>, Option<H>>, h: H)
    requires
        trie_wf(m),
        m[Seq::empty()] is None,
    ensures
        register_error(m, "/"@) is None,
        resolve_spec(registered(m, "/"@, h), path_pieces("/"@)) == Some(
            (h, Seq::<(Seq<char>, Seq<char>)>::empty()),
        ),
{
    reveal_strlit("/");
    let s = "/"@;
    assert(s.drop_last() =~= Seq::<char>::empty());
    assert(s.last() == '/');
    assert(split_on(s.drop_last(), '/') == seq![Seq::<char>::empty()]);
    assert(split_on(s, '/') =~= seq![Seq::<char>::empty(), Seq::<char>::empty()]);
    assert(path_pieces(s) =~= Seq::<Seq<char>>::empty());
    let pat = pattern_of(s)->Some_0;
    assert(pat =~= Seq::<SegmentView>::empty());
    assert(!has_param_conflict(m, pat));
    lemma_round_trip(m, s, h);
}

/// Methods are isolated: registering a route for GET leaves what every other
/// method resolves to unchanged.
pub proof fn lemma_method_isolation<H>(
    v: ServerView<H>,
    path: Seq<char>,
    h: H,
    method: Seq<char>,
    request_path: Seq<char>,
)
    requires
        method != "GET"@,
    ensures
        route_spec(ServerView { get: registered(v.get, path, h), ..v }, method, request_path)
            == route_spec(v, method, request_path),
{
}

} // verus!
