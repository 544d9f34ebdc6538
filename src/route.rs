//! Per-method route tries.
//!
//! A [`Route`] is a prefix tree over path segments. Each node stands for the
//! pattern of segments that leads to it from the root, and may hold a handler.
//! Its model is the map from the pattern of every node to the handler there, if
//! any: the nodes are exactly the prefixes of the registered patterns, and the
//! root, for the empty pattern, is always there.

use vstd::prelude::*;

use crate::path::{
    classify, is_empty_param, path_pieces, pattern_of, segments_view, split_path, tokenize,
    Segment, SegmentView,
};

verus! {

/// Why a route could not be registered or a path could not be resolved.
#[derive(PartialEq, Eq, Structural, Debug, Clone, Copy)]
pub enum RouteError {
    /// A route segment is a `:` with no parameter name after it.
    EmptyParameterName,
    /// A route names a parameter where the trie already has one of another name.
    ConflictingParameterName,
    /// The route is already registered.
    DuplicateRoute,
    /// No registered route matches the path.
    NotFound,
}

/// A segment that a registered pattern can hold: a literal never starts with
/// `:`, and a parameter has a name.
pub open spec fn valid_segment(g: SegmentView) -> bool {
    match g {
        SegmentView::Literal(t) => !(t.len() > 0 && t[0] == ':'),
        SegmentView::Param(n) => n.len() > 0,
    }
}

/// `q` is a prefix of `p`.
pub open spec fn is_prefix(q: Seq<SegmentView>, p: Seq<SegmentView>) -> bool {
    q.len() <= p.len() && q == p.take(q.len() as int)
}

/// What every route trie's model satisfies: the root is a node, the nodes are
/// closed under prefixes, a node has at most one parametric child, and every
/// segment is valid.
pub open spec fn trie_wf<H>(m: Map<Seq<SegmentView>, Option<H>>) -> bool {
    &&& m.contains_key(Seq::empty())
    &&& forall|q: Seq<SegmentView>| #[trigger]
        m.contains_key(q) && q.len() > 0 ==> m.contains_key(q.drop_last())
    &&& forall|q: Seq<SegmentView>, x: Seq<char>, y: Seq<char>|
        #[trigger] m.contains_key(q.push(SegmentView::Param(x))) && #[trigger] m.contains_key(
            q.push(SegmentView::Param(y)),
        ) ==> x == y
    &&& forall|q: Seq<SegmentView>, k: int|
        #[trigger] m.contains_key(q) && 0 <= k < q.len() ==> valid_segment(#[trigger] q[k])
}

/// The name of the parametric child of node `q`, if it has one.
pub open spec fn param_child<H>(
    m: Map<Seq<SegmentView>, Option<H>>,
    q: Seq<SegmentView>,
) -> Option<Seq<char>> {
    if exists|n: Seq<char>| #[trigger] m.contains_key(q.push(SegmentView::Param(n))) {
        Some(choose|n: Seq<char>| #[trigger] m.contains_key(q.push(SegmentView::Param(n))))
    } else {
        None
    }
}

/// The walk from node `cur` along the request segments `rest`, with the
/// bindings `acc` made so far: at each segment a literal child of that text
/// is taken first; else, for a non-empty segment, the parametric child, which
/// binds its name to the segment. Gives the node reached and all bindings, or
/// `None` where some segment has neither. There is no backtracking.
pub open spec fn walk<H>(
    m: Map<Seq<SegmentView>, Option<H>>,
    cur: Seq<SegmentView>,
    rest: Seq<Seq<char>>,
    acc: Seq<(Seq<char>, Seq<char>)>,
) -> Option<(Seq<SegmentView>, Seq<(Seq<char>, Seq<char>)>)>
    decreases rest.len(),
{
    if rest.len() == 0 {
        Some((cur, acc))
    } else if m.contains_key(cur.push(SegmentView::Literal(rest[0]))) {
        walk(m, cur.push(SegmentView::Literal(rest[0])), rest.drop_first(), acc)
    } else if rest[0].len() > 0 && param_child(m, cur) is Some {
        let n = param_child(m, cur)->Some_0;
        walk(m, cur.push(SegmentView::Param(n)), rest.drop_first(), acc.push((n, rest[0])))
    } else {
        None
    }
}

/// The handler and bindings that resolving the request segments `pieces`
/// gives, or `None` where the walk fails or ends at a node without a handler.
pub open spec fn resolve_spec<H>(m: Map<Seq<SegmentView>, Option<H>>, pieces: Seq<Seq<char>>) -> Option<
    (H, Seq<(Seq<char>, Seq<char>)>),
> {
    match walk(m, Seq::empty(), pieces, Seq::empty()) {
        Some((end, b)) => if m.contains_key(end) && m[end] is Some {
            Some((m[end]->Some_0, b))
        } else {
            None
        },
        None => None,
    }
}

/// Some node of `m` on the way to `pat` has a parametric child whose name
/// differs from the one that `pat` gives at that place.
pub open spec fn has_param_conflict<H>(
    m: Map<Seq<SegmentView>, Option<H>>,
    pat: Seq<SegmentView>,
) -> bool {
    exists|k: int, y: Seq<char>|
        0 <= k < pat.len() && pat[k] is Param && y != pat[k]->Param_0 && #[trigger] m.contains_key(
            pat.take(k).push(SegmentView::Param(y)),
        )
}

/// The error that registering the route path `path` in the trie `m` gives,
/// or `None` where it succeeds.
pub open spec fn register_error<H>(m: Map<Seq<SegmentView>, Option<H>>, path: Seq<char>) -> Option<
    RouteError,
> {
    match pattern_of(path) {
        None => Some(RouteError::EmptyParameterName),
        Some(pat) => if has_param_conflict(m, pat) {
            Some(RouteError::ConflictingParameterName)
        } else if m.contains_key(pat) && m[pat] is Some {
            Some(RouteError::DuplicateRoute)
        } else {
            None
        },
    }
}

/// `m` with every prefix of `pat` as a node, new nodes without a handler, and
/// `h` at `pat`.
pub open spec fn add_route<H>(
    m: Map<Seq<SegmentView>, Option<H>>,
    pat: Seq<SegmentView>,
    h: H,
) -> Map<Seq<SegmentView>, Option<H>> {
    Map::new(
        |q: Seq<SegmentView>| m.contains_key(q) || is_prefix(q, pat),
        |q: Seq<SegmentView>|
            if q == pat {
                Some(h)
            } else if m.contains_key(q) {
                m[q]
            } else {
                None
            },
    )
}

/// Every prefix of a node of a well-formed trie is a node.
pub proof fn lemma_prefix_nodes<H>(m: Map<Seq<SegmentView>, Option<H>>, q: Seq<SegmentView>, k: int)
    requires
        trie_wf(m),
        m.contains_key(q),
        0 <= k <= q.len(),
    ensures
        m.contains_key(q.take(k)),
    decreases q.len() - k,
{
    if k < q.len() {
        lemma_prefix_nodes(m, q, k + 1);
        assert(q.take(k + 1).drop_last() == q.take(k));
    } else {
        assert(q.take(k) == q);
    }
}

pub open spec fn bindings_view(v: Seq<(String, String)>) -> Seq<(Seq<char>, Seq<char>)> {
    v.map_values(|b: (String, String)| (b.0@, b.1@))
}

/// A node of the trie, with its links to its children.
struct Node<H> {
    handler: Option<H>,
    /// Literal children: segment text and index of the child.
    literals: Vec<(String, usize)>,
    /// The parametric child: parameter name and index of the child.
    param: Option<(String, usize)>,
}

/// The route trie of one HTTP method.
pub struct Route<H> {
    nodes: Vec<Node<H>>,
    /// The pattern of each node.
    paths: Ghost<Seq<Seq<SegmentView>>>,
    /// The node of each pattern.
    index: Ghost<Map<Seq<SegmentView>, int>>,
}

impl<H> View for Route<H> {
    type V = Map<Seq<SegmentView>, Option<H>>;

    closed spec fn view(&self) -> Map<Seq<SegmentView>, Option<H>> {
        Map::new(
            |q: Seq<SegmentView>| self.index@.contains_key(q),
            |q: Seq<SegmentView>| self.nodes@[self.index@[q]].handler,
        )
    }
}

impl<H> Route<H> {
    pub closed spec fn wf(&self) -> bool {
        let len = self.nodes@.len();
        &&& self.paths@.len() == len
        &&& len >= 1
        &&& self.paths@[0] == Seq::<SegmentView>::empty()
        &&& forall|i: int|
            0 <= i < len ==> #[trigger] self.index@.contains_key(self.paths@[i])
                && self.index@[self.paths@[i]] == i
        &&& forall|q: Seq<SegmentView>| #[trigger]
            self.index@.contains_key(q) ==> 0 <= self.index@[q] < len && self.paths@[self.index@[q]]
                == q
        &&& forall|i: int, k: int|
            0 <= i < len && 0 <= k < self.nodes@[i].literals@.len() ==> {
                let (t, j) = #[trigger] self.nodes@[i].literals@[k];
                j < len && self.paths@[j as int] == self.paths@[i].push(SegmentView::Literal(t@))
            }
        &&& forall|i: int|
            0 <= i < len && #[trigger] self.nodes@[i].param is Some ==> {
                let (n, j) = self.nodes@[i].param->Some_0;
                j < len && self.paths@[j as int] == self.paths@[i].push(SegmentView::Param(n@))
            }
        &&& forall|i: int, t: Seq<char>|
            0 <= i < len && #[trigger] self.index@.contains_key(
                self.paths@[i].push(SegmentView::Literal(t)),
            ) ==> exists|k: int|
                0 <= k < self.nodes@[i].literals@.len() && (#[trigger] self.nodes@[i].literals@[k]).0@
                    == t
        &&& forall|i: int, n: Seq<char>|
            0 <= i < len && #[trigger] self.index@.contains_key(
                self.paths@[i].push(SegmentView::Param(n)),
            ) ==> self.nodes@[i].param is Some && self.nodes@[i].param->Some_0.0@ == n
        &&& forall|q: Seq<SegmentView>| #[trigger]
            self.index@.contains_key(q) && q.len() > 0 ==> self.index@.contains_key(q.drop_last())
        &&& forall|q: Seq<SegmentView>, k: int| #[trigger]
            self.index@.contains_key(q) && 0 <= k < q.len() ==> valid_segment(#[trigger] q[k])
    }

    proof fn lemma_view_wf(&self)
        requires
            self.wf(),
        ensures
            trie_wf(self@),
    {
        assert(self.paths@[0] == Seq::<SegmentView>::empty());
        assert(self.index@.contains_key(self.paths@[0]));
        assert forall|q: Seq<SegmentView>, x: Seq<char>, y: Seq<char>|
            #[trigger] self@.contains_key(q.push(SegmentView::Param(x))) && #[trigger] self@.contains_key(
                q.push(SegmentView::Param(y)),
            ) implies x == y by {
            assert(q.push(SegmentView::Param(x)).drop_last() == q);
            let i = self.index@[q];
            assert(self.paths@[i] == q);
        }
    }

    /// The parametric child of node `i` is the one its link names.
    proof fn lemma_param_child(&self, i: int)
        requires
            self.wf(),
            0 <= i < self.nodes@.len(),
        ensures
            param_child(self@, self.paths@[i]) == match self.nodes@[i].param {
                Some((n, _)) => Some(n@),
                None => None::<Seq<char>>,
            },
    {
        let q = self.paths@[i];
        if self.nodes@[i].param is Some {
            let (n, j) = self.nodes@[i].param->Some_0;
            assert(self.index@.contains_key(self.paths@[j as int]));
            assert(self@.contains_key(q.push(SegmentView::Param(n@))));
        } else {
            assert forall|n: Seq<char>| !#[trigger] self@.contains_key(q.push(SegmentView::Param(n))) by {
                if self.index@.contains_key(self.paths@[i].push(SegmentView::Param(n))) {
                }
            }
        }
    }

    /// The literal child of node `cur` for the segment `t`.
    fn find_literal(&self, cur: usize, t: &String) -> (r: Option<usize>)
        requires
            self.wf(),
            cur < self.nodes@.len(),
        ensures
            match r {
                Some(j) => j < self.nodes@.len() && self.paths@[j as int] == self.paths@[cur as int].push(
                    SegmentView::Literal(t@),
                ),
                None => !self@.contains_key(self.paths@[cur as int].push(SegmentView::Literal(t@))),
            },
    {
        let lits = &self.nodes[cur].literals;
        let mut k: usize = 0;
        while k < lits.len()
            invariant
                self.wf(),
                cur < self.nodes@.len(),
                *lits == self.nodes@[cur as int].literals,
                k <= lits@.len(),
                forall|p: int| 0 <= p < k ==> (#[trigger] lits@[p]).0@ != t@,
            decreases lits@.len() - k,
        {
            if lits[k].0 == *t {
                assert(self.nodes@[cur as int].literals@[k as int] == lits@[k as int]);
                return Some(lits[k].1);
            }
            k = k + 1;
        }
        assert(!self.index@.contains_key(self.paths@[cur as int].push(SegmentView::Literal(t@))));
        None
    }

    /// Looks up the handler for a request path.
    ///
    /// The path is split into segments; from the root, each segment follows
    /// the literal child of that text where there is one, and otherwise, where
    /// it is not empty, the parametric child, binding the parameter's name to
    /// the segment. The handler of the node reached is returned with the
    /// bindings in path order; `NotFound` where a segment has no child to
    /// follow or the node reached has no handler.
    pub fn resolve(&self, path: &str) -> (r: Result<(&H, Vec<(String, String)>), RouteError>)
        requires
            self.wf(),
        ensures
            match resolve_spec(self@, path_pieces(path@)) {
                Some((h, b)) => r matches Ok((rh, rb)) && *rh == h && bindings_view(rb@) == b,
                None => r == Err::<(&H, Vec<(String, String)>), RouteError>(RouteError::NotFound),
            },
    {
        let pieces = split_path(path);
        let ghost ps = path_pieces(path@);
        let ghost m = self@;
        let mut cur: usize = 0;
        let mut binds: Vec<(String, String)> = Vec::new();
        let mut i: usize = 0;
        assert(ps.skip(0) == ps);
        assert(bindings_view(binds@) =~= Seq::empty());
        while i < pieces.len()
            invariant
                self.wf(),
                m == self@,
                pieces@.map_values(|p: String| p@) == ps,
                ps == path_pieces(path@),
                i <= pieces.len(),
                cur < self.nodes@.len(),
                walk(m, Seq::empty(), ps, Seq::empty()) == walk(
                    m,
                    self.paths@[cur as int],
                    ps.skip(i as int),
                    bindings_view(binds@),
                ),
            decreases pieces.len() - i,
        {
            let s = &pieces[i];
            let ghost here = self.paths@[cur as int];
            let ghost rest = ps.skip(i as int);
            assert(rest[0] == s@);
            assert(rest.drop_first() == ps.skip(i + 1));
            match self.find_literal(cur, s) {
                Some(j) => {
                    assert(self.index@.contains_key(self.paths@[j as int]));
                    cur = j;
                },
                None => {
                    proof {
                        self.lemma_param_child(cur as int);
                    }
                    match &self.nodes[cur].param {
                        Some(link) => {
                            if s.as_str().is_empty() {
                                return Err(RouteError::NotFound);
                            }
                            let ghost before = bindings_view(binds@);
                            binds.push((link.0.clone(), s.clone()));
                            assert(bindings_view(binds@) =~= before.push((link.0@, s@)));
                            cur = link.1;
                        },
                        None => {
                            return Err(RouteError::NotFound);
                        },
                    }
                },
            }
            i = i + 1;
        }
        assert(ps.skip(i as int) == Seq::<Seq<char>>::empty());
        assert(self.index@.contains_key(self.paths@[cur as int]));
        match &self.nodes[cur].handler {
            Some(h) => Ok((h, binds)),
            None => Err(RouteError::NotFound),
        }
    }

    /// `new` is `old` with one more node, for `key`, linked from node `cur`.
    proof fn lemma_child_added(old: Self, new: Self, cur: int, key: Seq<SegmentView>)
        requires
            old.wf(),
            0 <= cur < old.nodes@.len(),
            key.len() > 0,
            key.drop_last() == old.paths@[cur],
            valid_segment(key.last()),
            !old.index@.contains_key(key),
            new.nodes@.len() == old.nodes@.len() + 1,
            new.paths@ == old.paths@.push(key),
            new.index@ == old.index@.insert(key, old.nodes@.len() as int),
            new.nodes@.last().param is None,
            new.nodes@.last().literals@.len() == 0,
            forall|i: int| 0 <= i < old.nodes@.len() && i != cur ==> new.nodes@[i] == old.nodes@[i],
            new.nodes@[cur].handler == old.nodes@[cur].handler,
            match key.last() {
                SegmentView::Literal(t) => {
                    &&& new.nodes@[cur].param == old.nodes@[cur].param
                    &&& new.nodes@[cur].literals@.len() == old.nodes@[cur].literals@.len() + 1
                    &&& new.nodes@[cur].literals@.drop_last() == old.nodes@[cur].literals@
                    &&& new.nodes@[cur].literals@.last().0@ == t
                    &&& new.nodes@[cur].literals@.last().1 == old.nodes@.len()
                },
                SegmentView::Param(n) => {
                    &&& old.nodes@[cur].param is None
                    &&& new.nodes@[cur].param is Some
                    &&& new.nodes@[cur].param->Some_0.0@ == n
                    &&& new.nodes@[cur].param->Some_0.1 == old.nodes@.len()
                    &&& new.nodes@[cur].literals@ == old.nodes@[cur].literals@
                },
            },
        ensures
            new.wf(),
    {
        let len = new.nodes@.len();
        let j = old.nodes@.len() as int;
        assert forall|i: int, k: int|
            0 <= i < len && 0 <= k < new.nodes@[i].literals@.len() implies {
                let (t, c) = #[trigger] new.nodes@[i].literals@[k];
                c < len && new.paths@[c as int] == new.paths@[i].push(SegmentView::Literal(t@))
            } by {
            if i == cur && key.last() is Literal && k < old.nodes@[cur].literals@.len() {
                assert(new.nodes@[cur].literals@[k] == new.nodes@[cur].literals@.drop_last()[k]);
            }
            if i == j {
                assert(false);
            }
        }
        assert forall|i: int| 0 <= i < len && #[trigger] new.nodes@[i].param is Some implies {
            let (n, c) = new.nodes@[i].param->Some_0;
            c < len && new.paths@[c as int] == new.paths@[i].push(SegmentView::Param(n@))
        } by {
            if i == j {
                assert(false);
            }
        }
        assert forall|i: int, t: Seq<char>|
            0 <= i < len && #[trigger] new.index@.contains_key(
                new.paths@[i].push(SegmentView::Literal(t)),
            ) implies exists|k: int|
            0 <= k < new.nodes@[i].literals@.len() && (#[trigger] new.nodes@[i].literals@[k]).0@ == t by {
            let q = new.paths@[i].push(SegmentView::Literal(t));
            assert(q.drop_last() == new.paths@[i]);
            if i == j {
                assert(old.index@.contains_key(key.drop_last()));
                assert(false);
            }
            if q == key {
                assert(old.index@.contains_key(old.paths@[i]));
                assert(old.index@[old.paths@[i]] == i);
                assert(i == cur);
                let k = new.nodes@[i].literals@.len() - 1;
                assert(new.nodes@[i].literals@[k].0@ == t);
            } else {
                assert(old.index@.contains_key(old.paths@[i].push(SegmentView::Literal(t))));
                let k = choose|k: int|
                    0 <= k < old.nodes@[i].literals@.len() && (#[trigger] old.nodes@[i].literals@[k]).0@
                        == t;
                if i == cur && key.last() is Literal {
                    assert(new.nodes@[cur].literals@[k] == new.nodes@[cur].literals@.drop_last()[k]);
                }
                assert(new.nodes@[i].literals@[k] == old.nodes@[i].literals@[k]);
            }
        }
        assert forall|i: int, n: Seq<char>|
            0 <= i < len && #[trigger] new.index@.contains_key(
                new.paths@[i].push(SegmentView::Param(n)),
            ) implies new.nodes@[i].param is Some && new.nodes@[i].param->Some_0.0@ == n by {
            let q = new.paths@[i].push(SegmentView::Param(n));
            assert(q.drop_last() == new.paths@[i]);
            if i == j {
                assert(old.index@.contains_key(key.drop_last()));
                assert(false);
            }
            if q == key {
                assert(old.index@.contains_key(old.paths@[i]));
                assert(old.index@[old.paths@[i]] == i);
                assert(i == cur);
            } else {
                assert(old.index@.contains_key(old.paths@[i].push(SegmentView::Param(n))));
            }
        }
        assert forall|q: Seq<SegmentView>|
            #[trigger] new.index@.contains_key(q) && q.len() > 0 implies new.index@.contains_key(
                q.drop_last(),
            ) by {
            if q == key {
                assert(old.index@.contains_key(old.paths@[cur]));
            }
        }
        assert forall|q: Seq<SegmentView>, k: int|
            #[trigger] new.index@.contains_key(q) && 0 <= k < q.len() implies valid_segment(
                #[trigger] q[k],
            ) by {
            if q == key && k < q.len() - 1 {
                assert(old.index@.contains_key(old.paths@[cur]));
                assert(q[k] == old.paths@[cur][k]);
            }
        }
    }

    /// Adds a child without a handler under node `cur`, for the segment `seg`.
    fn add_child(&mut self, cur: usize, seg: &Segment) -> (j: usize)
        requires
            old(self).wf(),
            cur < old(self).nodes@.len(),
            valid_segment(seg@),
            !old(self)@.contains_key(old(self).paths@[cur as int].push(seg@)),
            seg is Param ==> old(self).nodes@[cur as int].param is None,
        ensures
            final(self).wf(),
            j == old(self).nodes@.len(),
            j < final(self).nodes@.len(),
            final(self).paths@[j as int] == old(self).paths@[cur as int].push(seg@),
            final(self)@ == old(self)@.insert(old(self).paths@[cur as int].push(seg@), None),
            final(self).nodes@[j as int].param is None,
    {
        let j = self.nodes.len();
        let ghost key = self.paths@[cur as int].push(seg@);
        let ghost old_self = *self;
        assert(key.drop_last() == self.paths@[cur as int]);
        self.nodes.push(Node { handler: None, literals: Vec::new(), param: None });
        self.paths = Ghost(self.paths@.push(key));
        self.index = Ghost(self.index@.insert(key, j as int));
        match seg {
            Segment::Literal(t) => {
                let text = t.clone();
                self.nodes[cur].literals.push((text, j));
                assert(self.nodes@[cur as int].literals@.drop_last() =~= old_self.nodes@[cur as int].literals@);
                proof {
                    Self::lemma_child_added(old_self, *self, cur as int, key);
                }
            },
            Segment::Param(n) => {
                self.nodes[cur].param = Some((n.clone(), j));
                proof {
                    Self::lemma_child_added(old_self, *self, cur as int, key);
                }
            },
        }
        assert(self@ =~= old_self@.insert(key, None));
        j
    }

    /// Puts `h` at node `cur`.
    fn set_handler(&mut self, cur: usize, h: H)
        requires
            old(self).wf(),
            cur < old(self).nodes@.len(),
        ensures
            final(self).wf(),
            final(self).paths == old(self).paths,
            final(self)@ == old(self)@.insert(old(self).paths@[cur as int], Some(h)),
    {
        let ghost old_self = *self;
        self.nodes[cur].handler = Some(h);
        assert(self.nodes@[cur as int].literals == old_self.nodes@[cur as int].literals);
        assert(self.index@.contains_key(self.paths@[cur as int]));
        assert(self@ =~= old_self@.insert(old_self.paths@[cur as int], Some(h)));
    }

    /// Registers `handler` for the route path `path`.
    ///
    /// The path is split into segments, a segment `:name` standing for a
    /// parameter. From the root, each segment follows the child for it, which
    /// is made where there is none. Fails with `EmptyParameterName` where a
    /// segment is a bare `:`, with `ConflictingParameterName` where a node on the
    /// way has a parametric child of another name, and with `DuplicateRoute`
    /// where the node reached has a handler already; the trie is then unchanged.
    pub fn insert(&mut self, path: String, handler: H) -> (r: Result<(), RouteError>)
        requires
            old(self).wf(),
        ensures
            final(self).wf(),
            trie_wf(final(self)@),
            match register_error(old(self)@, path@) {
                Some(e) => r == Err::<(), RouteError>(e) && final(self)@ == old(self)@,
                None => r == Ok::<(), RouteError>(()) && final(self)@ == add_route(
                    old(self)@,
                    pattern_of(path@)->Some_0,
                    handler,
                ),
            },
    {
        proof {
            self.lemma_view_wf();
        }
        let segs = match tokenize(path.as_str()) {
            Ok(v) => v,
            Err(e) => {
                return Err(e);
            },
        };
        let ghost pat = segments_view(segs@);
        let ghost m = self@;
        proof {
            let pieces = path_pieces(path@);
            assert forall|k: int| 0 <= k < pat.len() implies valid_segment(#[trigger] pat[k]) by {
                assert(pat[k] == classify(pieces[k]));
                assert(!is_empty_param(pieces[k]));
                if pieces[k].len() == 1 && pieces[k][0] == ':' {
                    assert(pieces[k] =~= seq![':']);
                }
            }
        }
        // Follow the nodes that are there already.
        let mut cur: usize = 0;
        let mut i: usize = 0;
        let mut missing = false;
        while i < segs.len() && !missing
            invariant
                self.wf(),
                m == self@,
                trie_wf(m),
                pat == segments_view(segs@),
                pat == pattern_of(path@)->Some_0,
                pattern_of(path@) is Some,
                forall|k: int| 0 <= k < pat.len() ==> valid_segment(#[trigger] pat[k]),
                i <= segs.len(),
                cur < self.nodes@.len(),
                self.paths@[cur as int] == pat.take(i as int),
                forall|k: int, y: Seq<char>|
                    0 <= k < i && pat[k] is Param && y != pat[k]->Param_0 ==> !#[trigger] m.contains_key(
                        pat.take(k).push(SegmentView::Param(y)),
                    ),
                missing ==> i < pat.len() && !m.contains_key(pat.take(i + 1)) && (pat[i as int] is Param
                    ==> self.nodes@[cur as int].param is None),
            decreases segs.len() - i + if missing { 0int } else { 1int },
        {
            assert(pat.take(i + 1) == pat.take(i as int).push(pat[i as int]));
            match &segs[i] {
                Segment::Literal(t) => {
                    match self.find_literal(cur, t) {
                        Some(j) => {
                            cur = j;
                            i = i + 1;
                        },
                        None => {
                            missing = true;
                        },
                    }
                },
                Segment::Param(n) => {
                    proof {
                        self.lemma_param_child(cur as int);
                    }
                    match &self.nodes[cur].param {
                        Some(link) => {
                            assert(self.index@.contains_key(self.paths@[link.1 as int]));
                            if link.0 == *n {
                                assert forall|y: Seq<char>| y != n@ implies !#[trigger] m.contains_key(
                                    pat.take(i as int).push(SegmentView::Param(y)),
                                ) by {}
                                cur = link.1;
                                i = i + 1;
                            } else {
                                assert(m.contains_key(
                                    pat.take(i as int).push(SegmentView::Param(link.0@)),
                                ));
                                assert(has_param_conflict(m, pat));
                                return Err(RouteError::ConflictingParameterName);
                            }
                        },
                        None => {
                            missing = true;
                        },
                    }
                },
            }
        }
        if !missing {
            assert(pat.take(i as int) == pat);
            assert(self.index@.contains_key(self.paths@[cur as int]));
            assert(!has_param_conflict(m, pat));
            if self.nodes[cur].handler.is_some() {
                return Err(RouteError::DuplicateRoute);
            }
            self.set_handler(cur, handler);
            assert forall|q: Seq<SegmentView>| is_prefix(q, pat) implies m.contains_key(q) by {
                lemma_prefix_nodes(m, pat, q.len() as int);
            }
            assert(self@ =~= add_route(m, pat, handler));
            proof {
                self.lemma_view_wf();
            }
            return Ok(());
        }
        // Nothing on the rest of the way is there yet: no conflict, no duplicate.
        proof {
            assert forall|k: int, y: Seq<char>|
                0 <= k < pat.len() && pat[k] is Param && y != pat[k]->Param_0 implies !#[trigger] m.contains_key(
                    pat.take(k).push(SegmentView::Param(y)),
                ) by {
                if k == i {
                    self.lemma_param_child(cur as int);
                } else if k > i {
                    let q = pat.take(k).push(SegmentView::Param(y));
                    if m.contains_key(q) {
                        lemma_prefix_nodes(m, q, i + 1);
                        assert(q.take(i + 1) == pat.take(i + 1));
                    }
                }
            }
            if m.contains_key(pat) {
                lemma_prefix_nodes(m, pat, i + 1);
            }
            assert(self.index@.contains_key(self.paths@[cur as int]));
            assert forall|q: Seq<SegmentView>| is_prefix(q, pat) && q.len() <= i implies m.contains_key(q) by {
                lemma_prefix_nodes(m, pat.take(i as int), q.len() as int);
                assert(pat.take(i as int).take(q.len() as int) == q);
            }
            assert(self@ =~= Map::new(
                |q: Seq<SegmentView>| m.contains_key(q) || (is_prefix(q, pat) && q.len() <= i),
                |q: Seq<SegmentView>|
                    if m.contains_key(q) {
                        m[q]
                    } else {
                        None
                    },
            ));
        }
        // Make the rest of the way.
        while i < segs.len()
            invariant
                self.wf(),
                pat == segments_view(segs@),
                forall|k: int| 0 <= k < pat.len() ==> valid_segment(#[trigger] pat[k]),
                trie_wf(m),
                i <= segs.len(),
                cur < self.nodes@.len(),
                self.paths@[cur as int] == pat.take(i as int),
                i < pat.len() ==> !self@.contains_key(pat.take(i + 1)),
                i < pat.len() && pat[i as int] is Param ==> self.nodes@[cur as int].param is None,
                self@ == Map::new(
                    |q: Seq<SegmentView>| m.contains_key(q) || (is_prefix(q, pat) && q.len() <= i),
                    |q: Seq<SegmentView>|
                        if m.contains_key(q) {
                            m[q]
                        } else {
                            None
                        },
                ),
            decreases segs.len() - i,
        {
            assert(pat.take(i + 1) == pat.take(i as int).push(pat[i as int]));
            let ghost before = self@;
            let j = self.add_child(cur, &segs[i]);
            cur = j;
            i = i + 1;
            proof {
                assert(self@ =~= Map::new(
                    |q: Seq<SegmentView>| m.contains_key(q) || (is_prefix(q, pat) && q.len() <= i),
                    |q: Seq<SegmentView>|
                        if m.contains_key(q) {
                            m[q]
                        } else {
                            None
                        },
                ));
                if i < pat.len() {
                    let next = pat.take(i + 1);
                    assert(next.drop_last() == pat.take(i as int));
                    if m.contains_key(next) {
                        assert(m.contains_key(next.drop_last()));
                    }
                }
            }
        }
        assert(pat.take(i as int) == pat);
        self.set_handler(cur, handler);
        assert(self@ =~= add_route(m, pat, handler));
        proof {
            self.lemma_view_wf();
        }
        Ok(())
    }

    /// A trie whose root holds `handler`: with `Some(h)`, the root path `/`
    /// is registered.
    pub fn new(handler: Option<H>) -> (r: Self)
        ensures
            r.wf(),
            r@ == Map::<Seq<SegmentView>, Option<H>>::empty().insert(Seq::empty(), handler),
            trie_wf(r@),
    {
        let root = Node { handler, literals: Vec::new(), param: None };
        let mut nodes: Vec<Node<H>> = Vec::new();
        nodes.push(root);
        let ghost paths = seq![Seq::<SegmentView>::empty()];
        let ghost index = map![Seq::<SegmentView>::empty() => 0int];
        let r = Route { nodes, paths: Ghost(paths), index: Ghost(index) };
        assert(r@ =~= Map::<Seq<SegmentView>, Option<H>>::empty().insert(Seq::empty(), handler));
        assert forall|q: Seq<SegmentView>| #[trigger] r.index@.contains_key(q) implies q.len() == 0 by {}
        assert(r.nodes@[0].literals@.len() == 0);
        proof {
            r.lemma_view_wf();
        }
        r
    }
}

} // verus!
