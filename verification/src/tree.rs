//! The compressed prefix tree that backs the router.
//!
//! A [`Node`] owns an ordered list of literal-prefixed static children, at
//! most one parameter child, and an ordered list of wildcard children keyed
//! by their trailing literal suffix (the "slug"). A node may carry a route
//! identifier (a pattern terminates exactly here) and a scope identifier
//! (every path descending through this node reports it).
//!
//! This module holds the data types, the well-formedness predicate that
//! insertion maintains, and the specification-level descent that defines
//! what recognition returns.

use vstd::prelude::*;

verus! {

broadcast use vstd::std_specs::vec::axiom_vec_index_decreases;

/// The byte that separates path segments.
pub const SLASH: u8 = 47;

/// The byte that introduces a named parameter segment.
pub const PARAM_MARK: u8 = 58;

/// The byte that introduces a wildcard segment.
pub const WILDCARD_MARK: u8 = 42;

/// A static child: a non-empty literal run of bytes and the subtree below it.
#[derive(Debug, PartialEq)]
pub struct StaticSegment {
    /// The literal bytes this edge consumes.
    pub segment: Vec<u8>,
    /// The subtree reached after consuming `segment`.
    pub child: Node,
}

/// A wildcard child: a fixed literal suffix ("slug") that anchors the
/// capture, and the subtree holding the terminal markers.
#[derive(Debug, PartialEq)]
pub struct WildcardSegment {
    /// The literal suffix that must end the path for this wildcard to match.
    pub slug: Vec<u8>,
    /// The node carrying the wildcard pattern's terminal markers.
    pub child: Node,
}

/// One node of the prefix tree.
#[derive(Debug, Default, PartialEq)]
pub struct Node {
    /// Ordered static children; no two share a first byte.
    pub static_segments: Vec<StaticSegment>,
    /// The at-most-one parameter child.
    pub param_segment: Option<Box<Node>>,
    /// Ordered wildcard children, with pairwise distinct slugs.
    pub wildcard_segments: Vec<WildcardSegment>,
    /// The identifier of a route pattern terminating exactly here.
    pub route: Option<usize>,
    /// The identifier of a scope whose boundary is this node.
    pub scope: Option<usize>,
}

/// The prefix tree itself: a bare root node.
#[derive(Debug, Default, PartialEq)]
pub struct Tree {
    /// The root; a request path descends from here.
    pub root: Node,
}

impl Node {
    /// A node with no children and no terminal markers.
    pub fn empty() -> (n: Node)
        ensures
            is_empty_node(n),
    {
        Node {
            static_segments: Vec::new(),
            param_segment: None,
            wildcard_segments: Vec::new(),
            route: None,
            scope: None,
        }
    }
}

impl Tree {
    /// A tree with nothing registered.
    pub fn new() -> (t: Tree)
        ensures
            is_empty_node(t.root),
            wf_node(t.root),
            static_only(t.root),
    {
        let t = Tree { root: Node::empty() };
        proof {
            lemma_empty_node_wf(t.root);
        }
        t
    }
}

/// Are two byte strings equal?
pub fn bytes_eq(a: &[u8], b: &[u8]) -> (r: bool)
    ensures
        r == (a@ == b@),
{
    if a.len() != b.len() {
        proof {
            assert(a@.len() != b@.len());
        }
        return false;
    }
    let mut j: usize = 0;
    while j < a.len()
        invariant
            a@.len() == b@.len(),
            j <= a@.len(),
            forall|m: int| 0 <= m < j ==> a@[m] == b@[m],
        decreases a@.len() - j,
    {
        if a[j] != b[j] {
            return false;
        }
        j = j + 1;
    }
    proof {
        assert(a@ =~= b@);
    }
    true
}

/// Does this node have no children and no terminal markers?
pub open spec fn is_empty_node(n: Node) -> bool {
    &&& n.static_segments@.len() == 0
    &&& n.param_segment is None
    &&& n.wildcard_segments@.len() == 0
    &&& n.route is None
    &&& n.scope is None
}

/// Is `s` free of parameter and wildcard markers? Such a byte string is a
/// purely literal pattern, and also the only shape a static segment takes.
pub open spec fn no_marker(s: Seq<u8>) -> bool {
    forall|i: int| 0 <= i < s.len() ==> s[i] != PARAM_MARK && s[i] != WILDCARD_MARK
}

/// The shallow shape invariant of a node's static children: each literal
/// is non-empty and marker-free, and no two start with the same byte (so
/// at most one can prefix any given path tail).
pub open spec fn static_segs_shallow_wf(segs: Seq<StaticSegment>) -> bool {
    &&& forall|i: int| 0 <= i < segs.len() ==> (#[trigger] segs[i]).segment@.len() > 0
    &&& forall|i: int| 0 <= i < segs.len() ==> no_marker((#[trigger] segs[i]).segment@)
    &&& forall|i: int, j: int|
        0 <= i < j < segs.len() ==> segs[i].segment@[0] != segs[j].segment@[0]
}

/// Well-formedness of a node, maintained by insertion: the shallow shape
/// invariant of the static children, pairwise distinct wildcard slugs, and
/// well-formed children throughout.
pub open spec fn wf_node(n: Node) -> bool
    decreases n,
{
    &&& static_segs_shallow_wf(n.static_segments@)
    &&& forall|i: int|
        0 <= i < n.static_segments@.len() ==> wf_node((#[trigger] n.static_segments@[i]).child)
    &&& match n.param_segment {
        Some(c) => wf_node(*c),
        None => true,
    }
    &&& forall|i: int, j: int|
        0 <= i < j < n.wildcard_segments@.len() ==> n.wildcard_segments@[i].slug@
            != n.wildcard_segments@[j].slug@
    &&& forall|i: int|
        0 <= i < n.wildcard_segments@.len() ==> wf_node((#[trigger] n.wildcard_segments@[i]).child)
}

/// An empty node is well-formed.
pub proof fn lemma_empty_node_wf(n: Node)
    requires
        is_empty_node(n),
    ensures
        wf_node(n),
{
}

/// An empty node registers nothing: every lookup, of any pattern, is
/// `None`. The fresh tree's lookups are therefore fully determined, and
/// with them — through the insertion contracts — the lookups after any
/// history of literal registrations.
pub proof fn lemma_empty_node_lookups(n: Node, q: Seq<u8>)
    requires
        is_empty_node(n),
    ensures
        lookup_route(n, q) is None,
        lookup_scope(n, q) is None,
{
    if q.len() == 0 {
        assert(lookup_node(n, q) == Some(n));
    }
}

/// Does the subtree hold only static children — no parameter child and
/// no wildcard child anywhere? Registering purely literal patterns keeps
/// a tree in this shape, and recognition on such a tree is completely
/// determined by the static lookup (see the laws module).
pub open spec fn static_only(n: Node) -> bool
    decreases n,
{
    &&& n.param_segment is None
    &&& n.wildcard_segments@.len() == 0
    &&& forall|i: int|
        0 <= i < n.static_segments@.len() ==> static_only((#[trigger] n.static_segments@[i]).child)
}

/// The scope identifiers the static lookup finds under the prefixes of
/// `p` of length `k` and longer, shortest prefix first: what a descent
/// along `p`'s spine reports, outer to inner.
pub open spec fn prefix_scopes(n: Node, p: Seq<u8>, k: int) -> Seq<usize>
    decreases p.len() - k,
{
    if k < 0 || k > p.len() {
        Seq::empty()
    } else if k == p.len() {
        match lookup_scope(n, p) {
            Some(s) => seq![s],
            None => Seq::empty(),
        }
    } else {
        (match lookup_scope(n, p.take(k)) {
            Some(s) => seq![s],
            None => Seq::empty(),
        }) + prefix_scopes(n, p, k + 1)
    }
}

/// Every route and scope identifier stored in the subtree is below `b`.
pub open spec fn ids_below(n: Node, b: nat) -> bool
    decreases n,
{
    &&& match n.route {
        Some(r) => r < b,
        None => true,
    }
    &&& match n.scope {
        Some(s) => s < b,
        None => true,
    }
    &&& forall|i: int|
        0 <= i < n.static_segments@.len() ==> ids_below(
            (#[trigger] n.static_segments@[i]).child,
            b,
        )
    &&& match n.param_segment {
        Some(c) => ids_below(*c, b),
        None => true,
    }
    &&& forall|i: int|
        0 <= i < n.wildcard_segments@.len() ==> ids_below(
            (#[trigger] n.wildcard_segments@[i]).child,
            b,
        )
}

/// A bound on the stored identifiers still holds for any larger bound.
pub proof fn lemma_ids_below_mono(n: Node, b1: nat, b2: nat)
    requires
        ids_below(n, b1),
        b1 <= b2,
    ensures
        ids_below(n, b2),
    decreases n,
{
    assert forall|i: int| 0 <= i < n.static_segments@.len() implies ids_below(
        (#[trigger] n.static_segments@[i]).child,
        b2,
    ) by {
        lemma_ids_below_mono(n.static_segments@[i].child, b1, b2);
    }
    match n.param_segment {
        Some(c) => lemma_ids_below_mono(*c, b1, b2),
        None => (),
    }
    assert forall|i: int| 0 <= i < n.wildcard_segments@.len() implies ids_below(
        (#[trigger] n.wildcard_segments@[i]).child,
        b2,
    ) by {
        lemma_ids_below_mono(n.wildcard_segments@[i].child, b1, b2);
    }
}

/// Does the literal `seg` stand byte-for-byte at position `off` of `path`?
pub open spec fn is_match_at(seg: Seq<u8>, path: Seq<u8>, off: int) -> bool {
    &&& 0 <= off
    &&& off + seg.len() <= path.len()
    &&& path.subrange(off, off + seg.len() as int) == seg
}

/// Does `slug` end `path`, without reaching back before position `off`?
pub open spec fn is_slug_match_at(slug: Seq<u8>, path: Seq<u8>, off: int) -> bool {
    &&& 0 <= off
    &&& off + slug.len() <= path.len()
    &&& path.subrange(path.len() - slug.len(), path.len() as int) == slug
}

/// The first index `>= k` of a static segment standing at `off` of `path`,
/// if any. Recognition takes the first match in registration order.
pub open spec fn find_static_from(
    segs: Seq<StaticSegment>,
    path: Seq<u8>,
    off: int,
    k: int,
) -> Option<int>
    decreases segs.len() - k,
{
    if k < 0 || k >= segs.len() {
        None
    } else if is_match_at(segs[k].segment@, path, off) {
        Some(k)
    } else {
        find_static_from(segs, path, off, k + 1)
    }
}

/// The first index `>= k` of a wildcard segment whose slug ends `path`,
/// if any. Wildcards are tried in registration order.
pub open spec fn find_wildcard_from(
    segs: Seq<WildcardSegment>,
    path: Seq<u8>,
    off: int,
    k: int,
) -> Option<int>
    decreases segs.len() - k,
{
    if k < 0 || k >= segs.len() {
        None
    } else if is_slug_match_at(segs[k].slug@, path, off) {
        Some(k)
    } else {
        find_wildcard_from(segs, path, off, k + 1)
    }
}

/// What `find_static_from` returns is an index in bounds, of the first
/// matching static segment at or after `k`; earlier candidates do not match.
pub proof fn lemma_find_static_from(segs: Seq<StaticSegment>, path: Seq<u8>, off: int, k: int)
    requires
        0 <= k,
    ensures
        match find_static_from(segs, path, off, k) {
            Some(i) => k <= i < segs.len() && is_match_at(segs[i].segment@, path, off)
                && forall|j: int| k <= j < i ==> !is_match_at(segs[j].segment@, path, off),
            None => forall|j: int| k <= j < segs.len() ==> !is_match_at(segs[j].segment@, path, off),
        },
    decreases segs.len() - k,
{
    if 0 <= k < segs.len() && !is_match_at(segs[k].segment@, path, off) {
        lemma_find_static_from(segs, path, off, k + 1);
    }
}

/// What `find_wildcard_from` returns is an index in bounds, of the first
/// matching wildcard slug at or after `k`; earlier candidates do not match.
pub proof fn lemma_find_wildcard_from(segs: Seq<WildcardSegment>, path: Seq<u8>, off: int, k: int)
    requires
        0 <= k,
    ensures
        match find_wildcard_from(segs, path, off, k) {
            Some(i) => k <= i < segs.len() && is_slug_match_at(segs[i].slug@, path, off)
                && forall|j: int| k <= j < i ==> !is_slug_match_at(segs[j].slug@, path, off),
            None => forall|j: int|
                k <= j < segs.len() ==> !is_slug_match_at(segs[j].slug@, path, off),
        },
    decreases segs.len() - k,
{
    if 0 <= k < segs.len() && !is_slug_match_at(segs[k].slug@, path, off) {
        lemma_find_wildcard_from(segs, path, off, k + 1);
    }
}

/// The position of the first `/` at or after `off`, or the end of `path`.
/// A parameter capture extends to here.
pub open spec fn next_slash(path: Seq<u8>, off: int) -> int
    decreases path.len() - off,
{
    if off < 0 {
        0
    } else if off >= path.len() {
        path.len() as int
    } else if path[off] == SLASH {
        off
    } else {
        next_slash(path, off + 1)
    }
}

/// Captured spans as mathematical integer pairs.
pub open spec fn spans_view(v: Seq<(usize, usize)>) -> Seq<(int, int)> {
    Seq::new(v.len(), |i: int| (v[i].0 as int, v[i].1 as int))
}

/// An optional span as a mathematical integer pair.
pub open spec fn span_opt_view(o: Option<(usize, usize)>) -> Option<(int, int)> {
    match o {
        Some(p) => Some((p.0 as int, p.1 as int)),
        None => None,
    }
}

/// An identifier found by the static lookup is one stored in the tree,
/// hence below any bound the tree's identifiers respect.
pub proof fn lemma_lookup_ids_below(n: Node, p: Seq<u8>, b: nat)
    requires
        ids_below(n, b),
    ensures
        match lookup_route(n, p) {
            Some(x) => x < b,
            None => true,
        },
        match lookup_scope(n, p) {
            Some(x) => x < b,
            None => true,
        },
    decreases p.len(),
{
    if p.len() > 0 {
        let segs = n.static_segments@;
        if exists|i: int|
            0 <= i < segs.len() && (#[trigger] segs[i]).segment@.len() > 0 && is_match_at(
                segs[i].segment@,
                p,
                0,
            ) {
            let i = choose|i: int|
                0 <= i < segs.len() && (#[trigger] segs[i]).segment@.len() > 0 && is_match_at(
                    segs[i].segment@,
                    p,
                    0,
                );
            assert(ids_below(segs[i].child, b));
            lemma_lookup_ids_below(segs[i].child, p.skip(segs[i].segment@.len() as int), b);
        }
    }
}

/// `next_slash` stays within `[off, path.len()]`, lands on a `/` or the
/// end, and skips no `/` on the way.
pub proof fn lemma_next_slash_bounds(path: Seq<u8>, off: int)
    requires
        0 <= off <= path.len(),
    ensures
        off <= next_slash(path, off) <= path.len(),
        next_slash(path, off) < path.len() ==> path[next_slash(path, off)] == SLASH,
        forall|m: int| off <= m < next_slash(path, off) ==> path[m] != SLASH,
    decreases path.len() - off,
{
    if off < path.len() && path[off] != SLASH {
        lemma_next_slash_bounds(path, off + 1);
    }
}

/// What one recognition descent returns, at the specification level.
pub ghost struct SpecMatch {
    /// The route terminating exactly where the path was fully consumed.
    pub route: Option<usize>,
    /// Captured parameter spans, pattern order, as byte offsets into the path.
    pub params: Seq<(int, int)>,
    /// The wildcard capture span, if a wildcard child ended the descent.
    pub wildcard: Option<(int, int)>,
    /// Scope identifiers of every node descended through, outer to inner.
    pub scopes: Seq<usize>,
}

/// The scope contribution of a single visited node.
pub open spec fn scope_seq(n: Node) -> Seq<usize> {
    match n.scope {
        Some(s) => seq![s],
        None => Seq::empty(),
    }
}

/// The recognition descent, from node `n` with the path consumed up to
/// `off`. At each node, in this order: if the path is consumed, the node's
/// route (if any) is the match; otherwise the first static child standing
/// at `off` is taken; otherwise the parameter child captures up to the next
/// `/`; otherwise the first wildcard child whose slug ends the path
/// captures the middle and the descent stops at that child's route. There
/// is no backtracking: a branch once taken is never retried. The scope of
/// a wildcard child the descent ends on is not reported: the descent stops
/// at the wildcard without visiting that child.
pub open spec fn spec_desc(n: Node, path: Seq<u8>, off: int) -> SpecMatch
    decreases n,
    via spec_desc_decreases
{
    if off >= path.len() {
        SpecMatch { route: n.route, params: Seq::empty(), wildcard: None, scopes: scope_seq(n) }
    } else {
        match find_static_from(n.static_segments@, path, off, 0) {
            Some(i) => {
                let seg = n.static_segments@[i];
                let sub = spec_desc(seg.child, path, off + seg.segment@.len());
                SpecMatch {
                    route: sub.route,
                    params: sub.params,
                    wildcard: sub.wildcard,
                    scopes: scope_seq(n) + sub.scopes,
                }
            },
            None => match n.param_segment {
                Some(c) => {
                    let end = next_slash(path, off);
                    let sub = spec_desc(*c, path, end);
                    SpecMatch {
                        route: sub.route,
                        params: seq![(off, end)] + sub.params,
                        wildcard: sub.wildcard,
                        scopes: scope_seq(n) + sub.scopes,
                    }
                },
                None => match find_wildcard_from(n.wildcard_segments@, path, off, 0) {
                    Some(i) => {
                        let w = n.wildcard_segments@[i];
                        SpecMatch {
                            route: w.child.route,
                            params: Seq::empty(),
                            wildcard: Some((off, path.len() - w.slug@.len())),
                            scopes: scope_seq(n),
                        }
                    },
                    None => SpecMatch {
                        route: None,
                        params: Seq::empty(),
                        wildcard: None,
                        scopes: scope_seq(n),
                    },
                },
            },
        }
    }
}

#[via_fn]
proof fn spec_desc_decreases(n: Node, path: Seq<u8>, off: int) {
    lemma_find_static_from(n.static_segments@, path, off, 0);
    if off < path.len() {
        match find_static_from(n.static_segments@, path, off, 0) {
            Some(i) => {
                assert(decreases_to!(n => n.static_segments@[i].child));
            },
            None => (),
        }
    }
}

/// The node an exactly-consumed pattern suffix lands on, descending only
/// through static children: `None` if the suffix ends inside a segment or
/// leaves the tree. Under `wf_node` at most one child can match, so the
/// choice inside `lookup_in_segs` is determined.
pub open spec fn lookup_node(n: Node, p: Seq<u8>) -> Option<Node>
    decreases p.len(), 1int,
    when p.len() >= 0
{
    if p.len() == 0 {
        Some(n)
    } else {
        lookup_in_segs(n.static_segments@, p)
    }
}

/// The static-descent continuation of [`lookup_node`], over a node's
/// static children alone.
pub open spec fn lookup_in_segs(segs: Seq<StaticSegment>, p: Seq<u8>) -> Option<Node>
    decreases p.len(), 0int,
    when p.len() > 0
{
    if exists|i: int|
        0 <= i < segs.len() && (#[trigger] segs[i]).segment@.len() > 0 && is_match_at(
            segs[i].segment@,
            p,
            0,
        ) {
        let i = choose|i: int|
            0 <= i < segs.len() && (#[trigger] segs[i]).segment@.len() > 0 && is_match_at(
                segs[i].segment@,
                p,
                0,
            );
        lookup_node(segs[i].child, p.skip(segs[i].segment@.len() as int))
    } else {
        None
    }
}

/// When the static children have pairwise distinct first bytes and child
/// `i` matches the front of `p`, the static descent goes through child `i`.
pub proof fn lemma_lookup_in_segs_step(segs: Seq<StaticSegment>, p: Seq<u8>, i: int)
    requires
        static_segs_shallow_wf(segs),
        p.len() > 0,
        0 <= i < segs.len(),
        is_match_at(segs[i].segment@, p, 0),
    ensures
        lookup_in_segs(segs, p) == lookup_node(
            segs[i].child,
            p.skip(segs[i].segment@.len() as int),
        ),
{
    let j = choose|j: int|
        0 <= j < segs.len() && (#[trigger] segs[j]).segment@.len() > 0 && is_match_at(
            segs[j].segment@,
            p,
            0,
        );
    assert(segs[i].segment@[0] == p[0]);
    assert(segs[j].segment@[0] == p[0]);
    if i != j {
        if i < j {
            assert(segs[i].segment@[0] != segs[j].segment@[0]);
        } else {
            assert(segs[j].segment@[0] != segs[i].segment@[0]);
        }
    }
    assert(j == i);
}

/// When no static child matches the front of the non-empty `p`, the static
/// descent fails.
pub proof fn lemma_lookup_in_segs_none(segs: Seq<StaticSegment>, p: Seq<u8>)
    requires
        p.len() > 0,
        forall|j: int|
            0 <= j < segs.len() ==> !is_match_at((#[trigger] segs[j]).segment@, p, 0),
    ensures
        lookup_in_segs(segs, p) is None,
{
}

/// The route identifier registered under the purely literal pattern `p`,
/// if any.
pub open spec fn lookup_route(n: Node, p: Seq<u8>) -> Option<usize> {
    match lookup_node(n, p) {
        Some(m) => m.route,
        None => None,
    }
}

/// The scope identifier registered under the purely literal pattern `p`,
/// if any.
pub open spec fn lookup_scope(n: Node, p: Seq<u8>) -> Option<usize> {
    match lookup_node(n, p) {
        Some(m) => m.scope,
        None => None,
    }
}

/// The node the pattern `p` lands on when its text is replayed against
/// the tree: a literal run descends the static child it is a byte-exact
/// prefix match of, `:` descends the parameter child — whatever name the
/// pattern declares, since the tree stores none — and `*` selects the
/// wildcard child with the identical slug, where the pattern ends. This
/// is the terminal node a registration of `p` merges its identifier
/// into; `None` means the pattern's path does not yet exist in full.
pub open spec fn pat_lookup(n: Node, p: Seq<u8>) -> Option<Node>
    decreases p.len(),
    via pat_lookup_decreases
{
    if p.len() == 0 {
        Some(n)
    } else if p[0] == PARAM_MARK {
        match n.param_segment {
            Some(c) => pat_lookup(*c, p.skip(next_slash(p, 1))),
            None => None,
        }
    } else if p[0] == WILDCARD_MARK {
        if exists|f: int|
            0 <= f < n.wildcard_segments@.len() && (#[trigger] n.wildcard_segments@[f]).slug@
                == p.skip(1) {
            let f = choose|f: int|
                0 <= f < n.wildcard_segments@.len() && (#[trigger] n.wildcard_segments@[f]).slug@
                    == p.skip(1);
            Some(n.wildcard_segments@[f].child)
        } else {
            None
        }
    } else {
        if exists|i: int|
            0 <= i < n.static_segments@.len() && (#[trigger] n.static_segments@[i]).segment@.len()
                > 0 && is_match_at(n.static_segments@[i].segment@, p, 0) {
            let i = choose|i: int|
                0 <= i < n.static_segments@.len()
                    && (#[trigger] n.static_segments@[i]).segment@.len() > 0 && is_match_at(
                    n.static_segments@[i].segment@,
                    p,
                    0,
                );
            pat_lookup(n.static_segments@[i].child, p.skip(n.static_segments@[i].segment@.len() as int))
        } else {
            None
        }
    }
}

#[via_fn]
proof fn pat_lookup_decreases(n: Node, p: Seq<u8>) {
    if p.len() > 0 && p[0] == PARAM_MARK {
        lemma_next_slash_bounds(p, 1);
    }
}

/// The route identifier at the node the pattern `p` lands on, if any.
pub open spec fn pat_route(n: Node, p: Seq<u8>) -> Option<usize> {
    match pat_lookup(n, p) {
        Some(m) => m.route,
        None => None,
    }
}

/// The scope identifier at the node the pattern `p` lands on, if any.
pub open spec fn pat_scope(n: Node, p: Seq<u8>) -> Option<usize> {
    match pat_lookup(n, p) {
        Some(m) => m.scope,
        None => None,
    }
}

/// When the static children have pairwise distinct first bytes and child
/// `i` matches the front of the non-empty pattern, the pattern descent
/// goes through child `i`.
pub proof fn lemma_pat_lookup_static(n: Node, p: Seq<u8>, i: int)
    requires
        static_segs_shallow_wf(n.static_segments@),
        p.len() > 0,
        0 <= i < n.static_segments@.len(),
        is_match_at(n.static_segments@[i].segment@, p, 0),
    ensures
        pat_lookup(n, p) == pat_lookup(
            n.static_segments@[i].child,
            p.skip(n.static_segments@[i].segment@.len() as int),
        ),
{
    let segs = n.static_segments@;
    assert(segs[i].segment@[0] == p[0]);
    assert(p[0] != PARAM_MARK && p[0] != WILDCARD_MARK) by {
        assert(no_marker(segs[i].segment@));
    }
    let j = choose|j: int|
        0 <= j < segs.len() && (#[trigger] segs[j]).segment@.len() > 0 && is_match_at(
            segs[j].segment@,
            p,
            0,
        );
    assert(segs[j].segment@[0] == p[0]);
    if i != j {
        if i < j {
            assert(segs[i].segment@[0] != segs[j].segment@[0]);
        } else {
            assert(segs[j].segment@[0] != segs[i].segment@[0]);
        }
    }
    assert(j == i);
}

/// When no static child matches the front of the non-empty, literally
/// starting pattern, the pattern descent fails.
pub proof fn lemma_pat_lookup_static_none(n: Node, p: Seq<u8>)
    requires
        p.len() > 0,
        p[0] != PARAM_MARK,
        p[0] != WILDCARD_MARK,
        forall|j: int|
            0 <= j < n.static_segments@.len() ==> !is_match_at(
                (#[trigger] n.static_segments@[j]).segment@,
                p,
                0,
            ),
    ensures
        pat_lookup(n, p) is None,
{
}

/// When the wildcard slugs are pairwise distinct and child `f` carries
/// the pattern's slug, the pattern descent lands on child `f`.
pub proof fn lemma_pat_lookup_wild(n: Node, p: Seq<u8>, f: int)
    requires
        forall|i: int, j: int|
            0 <= i < j < n.wildcard_segments@.len() ==> n.wildcard_segments@[i].slug@
                != n.wildcard_segments@[j].slug@,
        p.len() > 0,
        p[0] == WILDCARD_MARK,
        0 <= f < n.wildcard_segments@.len(),
        n.wildcard_segments@[f].slug@ == p.skip(1),
    ensures
        pat_lookup(n, p) == Some(n.wildcard_segments@[f].child),
{
    let ws = n.wildcard_segments@;
    let g = choose|g: int| 0 <= g < ws.len() && (#[trigger] ws[g]).slug@ == p.skip(1);
    if f != g {
        if f < g {
            assert(ws[f].slug@ != ws[g].slug@);
        } else {
            assert(ws[g].slug@ != ws[f].slug@);
        }
    }
    assert(g == f);
}

/// When no wildcard child carries the pattern's slug, the pattern descent
/// fails.
pub proof fn lemma_pat_lookup_wild_none(n: Node, p: Seq<u8>)
    requires
        p.len() > 0,
        p[0] == WILDCARD_MARK,
        forall|j: int|
            0 <= j < n.wildcard_segments@.len() ==> (#[trigger] n.wildcard_segments@[j]).slug@
                != p.skip(1),
    ensures
        pat_lookup(n, p) is None,
{
}

/// On a marker-free pattern the pattern descent and the static lookup
/// agree: both consume the text through static children only.
pub proof fn lemma_pat_lookup_no_marker(n: Node, p: Seq<u8>)
    requires
        no_marker(p),
    ensures
        pat_lookup(n, p) == lookup_node(n, p),
    decreases p.len(),
{
    if p.len() > 0 {
        assert(p[0] != PARAM_MARK && p[0] != WILDCARD_MARK);
        if exists|i: int|
            0 <= i < n.static_segments@.len() && (#[trigger] n.static_segments@[i]).segment@.len()
                > 0 && is_match_at(n.static_segments@[i].segment@, p, 0) {
            let i = choose|i: int|
                0 <= i < n.static_segments@.len()
                    && (#[trigger] n.static_segments@[i]).segment@.len() > 0 && is_match_at(
                    n.static_segments@[i].segment@,
                    p,
                    0,
                );
            let rest = p.skip(n.static_segments@[i].segment@.len() as int);
            assert(no_marker(rest)) by {
                assert(forall|m: int|
                    0 <= m < rest.len() ==> rest[m] == p[m + n.static_segments@[i].segment@.len()]);
            }
            lemma_pat_lookup_no_marker(n.static_segments@[i].child, rest);
        }
    }
}

/// An identifier found by the pattern descent is one stored in the tree,
/// hence below any bound the tree's identifiers respect.
pub proof fn lemma_pat_lookup_ids_below(n: Node, p: Seq<u8>, b: nat)
    requires
        ids_below(n, b),
    ensures
        match pat_route(n, p) {
            Some(x) => x < b,
            None => true,
        },
        match pat_scope(n, p) {
            Some(x) => x < b,
            None => true,
        },
    decreases p.len(),
{
    if p.len() > 0 {
        if p[0] == PARAM_MARK {
            match n.param_segment {
                Some(c) => {
                    lemma_next_slash_bounds(p, 1);
                    lemma_pat_lookup_ids_below(*c, p.skip(next_slash(p, 1)), b);
                },
                None => (),
            }
        } else if p[0] == WILDCARD_MARK {
            if exists|f: int|
                0 <= f < n.wildcard_segments@.len() && (#[trigger] n.wildcard_segments@[f]).slug@
                    == p.skip(1) {
                let f = choose|f: int|
                    0 <= f < n.wildcard_segments@.len()
                        && (#[trigger] n.wildcard_segments@[f]).slug@ == p.skip(1);
                assert(ids_below(n.wildcard_segments@[f].child, b));
            }
        } else {
            if exists|i: int|
                0 <= i < n.static_segments@.len()
                    && (#[trigger] n.static_segments@[i]).segment@.len() > 0 && is_match_at(
                    n.static_segments@[i].segment@,
                    p,
                    0,
                ) {
                let i = choose|i: int|
                    0 <= i < n.static_segments@.len()
                        && (#[trigger] n.static_segments@[i]).segment@.len() > 0 && is_match_at(
                        n.static_segments@[i].segment@,
                        p,
                        0,
                    );
                assert(ids_below(n.static_segments@[i].child, b));
                lemma_pat_lookup_ids_below(
                    n.static_segments@[i].child,
                    p.skip(n.static_segments@[i].segment@.len() as int),
                    b,
                );
            }
        }
    }
}

/// Skipping a common prefix commutes with finding the next `/`: the first
/// slash of the suffix stands where the first slash at or after the cut
/// stands in the whole.
pub proof fn lemma_next_slash_shift(p: Seq<u8>, pos: int, k: int)
    requires
        0 <= pos,
        0 <= k,
        pos + k <= p.len(),
    ensures
        next_slash(p.skip(pos), k) == next_slash(p, pos + k) - pos,
    decreases p.len() - pos - k,
{
    let s = p.skip(pos);
    if k < s.len() {
        assert(s[k] == p[pos + k]);
        if p[pos + k] != SLASH {
            lemma_next_slash_shift(p, pos, k + 1);
        }
    }
}

} // verus!

