//! The insertion engine: a single forward pass over a pattern's bytes,
//! descending and creating nodes.
//!
//! Registration runs in three steps. First the pattern's syntax is
//! checked: every `:` and `*` must stand immediately after a `/`, or the
//! registration fails with `InvalidPatternSyntax`. Then a read-only probe
//! replays the pattern against the tree and reports the `DuplicateRoute`
//! or `DuplicateWildcard` conflict a registration would run into. Only
//! when both checks pass does the walk mutate the tree: descent consumes
//! shared literal prefixes, splitting an existing static segment when the
//! share is partial; a `:` consumes a parameter name up to the next `/`;
//! a `*` consumes the rest of the pattern as a wildcard slug and ends the
//! walk; when the pattern is consumed, the route or scope identifier is
//! merged into the terminal node.
//!
//! Because nothing is mutated before both checks pass, a failed
//! registration returns the tree exactly as it was. A successful one
//! changes it exactly as the [`inserted`] relation describes, which pins
//! the whole resulting structure — and with it, through the recognition
//! module's exact contract, every later recognition result.

use vstd::prelude::*;

use crate::error::{Error, ErrorKind};
use crate::param::ParamNames;
use crate::tree::{
    is_empty_node, is_match_at, static_only, lemma_lookup_in_segs_none, lemma_lookup_in_segs_step, lookup_in_segs, lookup_node,
    lookup_route, lookup_scope, next_slash, no_marker, static_segs_shallow_wf, wf_node, ids_below,
    lemma_next_slash_shift, lemma_pat_lookup_static, lemma_pat_lookup_static_none,
    lemma_pat_lookup_wild, lemma_pat_lookup_wild_none, pat_lookup,
    Node, StaticSegment, Tree, WildcardSegment, PARAM_MARK, SLASH, WILDCARD_MARK,
};

verus! {

broadcast use vstd::std_specs::vec::axiom_vec_index_decreases;

/// Which terminal slot of a node an insertion fills.
#[derive(Clone, Copy, Debug, PartialEq, Eq, Structural)]
pub enum SlotKind {
    /// The pattern registers a route.
    RouteSlot,
    /// The pattern registers a scope boundary.
    ScopeSlot,
}

/// The terminal slot of `n` that `kind` selects.
pub open spec fn slot_of(kind: SlotKind, n: Node) -> Option<usize> {
    match kind {
        SlotKind::RouteSlot => n.route,
        SlotKind::ScopeSlot => n.scope,
    }
}

/// The terminal slot of `n` that `kind` does not select.
pub open spec fn other_slot_of(kind: SlotKind, n: Node) -> Option<usize> {
    match kind {
        SlotKind::RouteSlot => n.scope,
        SlotKind::ScopeSlot => n.route,
    }
}

/// The identifier registered in the `kind` slot under the purely literal
/// pattern `p`.
spec fn slot_lookup(kind: SlotKind, n: Node, p: Seq<u8>) -> Option<usize> {
    match kind {
        SlotKind::RouteSlot => lookup_route(n, p),
        SlotKind::ScopeSlot => lookup_scope(n, p),
    }
}

/// The identifier registered in the slot `kind` does not select, under
/// the purely literal pattern `p`.
spec fn other_slot_lookup(kind: SlotKind, n: Node, p: Seq<u8>) -> Option<usize> {
    match kind {
        SlotKind::RouteSlot => lookup_scope(n, p),
        SlotKind::ScopeSlot => lookup_route(n, p),
    }
}

/// Every route and scope already registered under a literal pattern in
/// `n0` is still registered, unchanged, in `n1`.
pub open spec fn preserves_lookups(n0: Node, n1: Node) -> bool {
    &&& forall|q: Seq<u8>|
        lookup_route(n0, q) is Some ==> #[trigger] lookup_route(n1, q) == lookup_route(n0, q)
    &&& forall|q: Seq<u8>|
        lookup_scope(n0, q) is Some ==> #[trigger] lookup_scope(n1, q) == lookup_scope(n0, q)
}

/// `n0` and `n1` register exactly the same routes and scopes under every
/// literal pattern.
pub open spec fn lookups_equal(n0: Node, n1: Node) -> bool {
    &&& forall|q: Seq<u8>| #[trigger] lookup_route(n1, q) == lookup_route(n0, q)
    &&& forall|q: Seq<u8>| #[trigger] lookup_scope(n1, q) == lookup_scope(n0, q)
}

/// Every identifier bound holding of `n0` still holds of `n1` once it
/// also covers `id`.
pub open spec fn ids_extended(n0: Node, n1: Node, id: usize) -> bool {
    forall|b: nat| ids_below(n0, b) && id < b ==> #[trigger] ids_below(n1, b)
}

/// The position of the first `:` or `*` at or after `off`, or the end of
/// `p`. A literal run extends to here.
pub open spec fn next_marker(p: Seq<u8>, off: int) -> int
    decreases p.len() - off,
{
    if off < 0 {
        0
    } else if off >= p.len() {
        p.len() as int
    } else if p[off] == PARAM_MARK || p[off] == WILDCARD_MARK {
        off
    } else {
        next_marker(p, off + 1)
    }
}

/// Is the pattern suffix starting at `off` cleanly formed: every `:` or
/// `*` after the suffix's first byte stands immediately after a `/`? For
/// such patterns the declared names are a pure function of the text.
pub open spec fn clean_from(p: Seq<u8>, off: int) -> bool {
    forall|i: int|
        off < i < p.len() && ((#[trigger] p[i]) == PARAM_MARK || p[i] == WILDCARD_MARK) ==> p[i
            - 1] == SLASH
}

/// The parameter names the suffix of `p` starting at `off` declares: for
/// each `:`, the bytes up to the next `/` or the end; nothing at or after
/// a `*`.
pub open spec fn scan_names(p: Seq<u8>, off: int) -> Seq<Seq<u8>>
    decreases p.len() - off,
    via scan_names_decreases
{
    if off < 0 || off >= p.len() {
        Seq::empty()
    } else if p[off] == PARAM_MARK {
        seq![p.subrange(off + 1, next_slash(p, off + 1))] + scan_names(p, next_slash(p, off + 1))
    } else if p[off] == WILDCARD_MARK {
        Seq::empty()
    } else {
        scan_names(p, off + 1)
    }
}

#[via_fn]
proof fn scan_names_decreases(p: Seq<u8>, off: int) {
    if 0 <= off < p.len() && p[off] == PARAM_MARK {
        crate::tree::lemma_next_slash_bounds(p, off + 1);
    }
}

/// Does the suffix of `p` starting at `off` declare a wildcard: a `*`
/// outside any parameter name?
pub open spec fn scan_wildcard(p: Seq<u8>, off: int) -> bool
    decreases p.len() - off,
    via scan_wildcard_decreases
{
    if off < 0 || off >= p.len() {
        false
    } else if p[off] == PARAM_MARK {
        scan_wildcard(p, next_slash(p, off + 1))
    } else if p[off] == WILDCARD_MARK {
        true
    } else {
        scan_wildcard(p, off + 1)
    }
}

#[via_fn]
proof fn scan_wildcard_decreases(p: Seq<u8>, off: int) {
    if 0 <= off < p.len() && p[off] == PARAM_MARK {
        crate::tree::lemma_next_slash_bounds(p, off + 1);
    }
}

/// The scan ignores literal bytes: skipping a marker-free stretch changes
/// neither the declared names nor the wildcard flag.
proof fn lemma_scan_skip_literals(p: Seq<u8>, off: int, end: int)
    requires
        0 <= off <= end <= p.len(),
        forall|m: int| off <= m < end ==> (#[trigger] p[m]) != PARAM_MARK && p[m] != WILDCARD_MARK,
    ensures
        scan_names(p, off) == scan_names(p, end),
        scan_wildcard(p, off) == scan_wildcard(p, end),
    decreases end - off,
{
    if off < end {
        lemma_scan_skip_literals(p, off + 1, end);
    }
}

/// Is every parameter and wildcard marker in the suffix of `p` from
/// `off` on immediately preceded by `/`? Registration demands this of
/// the whole pattern and rejects the pattern otherwise, before touching
/// the tree.
pub open spec fn clean_at(p: Seq<u8>, off: int) -> bool {
    forall|i: int|
        off <= i < p.len() && ((#[trigger] p[i]) == PARAM_MARK || p[i] == WILDCARD_MARK) ==> i >= 1
            && p[i - 1] == SLASH
}

/// Is every marker of `pat` immediately preceded by `/`?
fn marks_after_slash(pat: &[u8]) -> (r: bool)
    ensures
        r == clean_at(pat@, 0),
{
    let mut j: usize = 0;
    while j < pat.len()
        invariant
            j <= pat@.len(),
            forall|i: int|
                0 <= i < j && ((#[trigger] pat@[i]) == PARAM_MARK || pat@[i] == WILDCARD_MARK)
                    ==> i >= 1 && pat@[i - 1] == SLASH,
        decreases pat@.len() - j,
    {
        if pat[j] == PARAM_MARK || pat[j] == WILDCARD_MARK {
            if j == 0 || pat[j - 1] != SLASH {
                proof {
                    assert(!clean_at(pat@, 0)) by {
                        assert(pat@[j as int] == PARAM_MARK || pat@[j as int] == WILDCARD_MARK);
                    }
                }
                return false;
            }
        }
        j = j + 1;
    }
    true
}

/// The length of the longest common prefix of `a` and `b`.
pub open spec fn lcp(a: Seq<u8>, b: Seq<u8>) -> int
    decreases a.len(),
{
    if a.len() == 0 || b.len() == 0 || a[0] != b[0] {
        0
    } else {
        1 + lcp(a.skip(1), b.skip(1))
    }
}

/// `lcp` is characterized by prefix equality plus divergence: a shared
/// length after which the strings end or differ is the longest common
/// prefix.
pub proof fn lemma_lcp_char(a: Seq<u8>, b: Seq<u8>, l: int)
    requires
        0 <= l <= a.len(),
        l <= b.len(),
        a.subrange(0, l) == b.subrange(0, l),
        l < a.len() && l < b.len() ==> a[l] != b[l],
    ensures
        lcp(a, b) == l,
    decreases a.len(),
{
    if l == 0 {
        if a.len() > 0 && b.len() > 0 {
            assert(a[0] != b[0]);
        }
    } else {
        assert(a[0] == b[0]) by {
            assert(a.subrange(0, l)[0] == a[0]);
            assert(b.subrange(0, l)[0] == b[0]);
        }
        let a1 = a.skip(1);
        let b1 = b.skip(1);
        assert(a1.subrange(0, l - 1) =~= b1.subrange(0, l - 1)) by {
            assert(forall|m: int|
                0 <= m < l - 1 ==> a1[m] == a[m + 1] && b1[m] == b[m + 1] && a.subrange(0, l)[m + 1]
                    == a[m + 1] && b.subrange(0, l)[m + 1] == b[m + 1]);
        }
        lemma_lcp_char(a1, b1, l - 1);
    }
}

/// The fresh chain of nodes a pattern suffix materializes below its
/// attachment point: each literal run becomes one static child, each `:`
/// one parameter child, a `*` one wildcard child ending the chain, and
/// the terminal node carries exactly the registered identifier in the
/// selected slot — nothing else lives anywhere in the chain.
pub open spec fn fresh_tail(n: Node, p: Seq<u8>, kind: SlotKind, id: usize) -> bool
    decreases p.len(),
    via fresh_tail_decreases
{
    if p.len() == 0 {
        &&& n.static_segments@.len() == 0
        &&& n.param_segment is None
        &&& n.wildcard_segments@.len() == 0
        &&& slot_of(kind, n) == Some(id)
        &&& other_slot_of(kind, n) is None
    } else if p[0] == PARAM_MARK {
        &&& n.static_segments@.len() == 0
        &&& n.wildcard_segments@.len() == 0
        &&& n.route is None
        &&& n.scope is None
        &&& match n.param_segment {
            Some(c) => fresh_tail(*c, p.skip(next_slash(p, 1)), kind, id),
            None => false,
        }
    } else if p[0] == WILDCARD_MARK {
        &&& n.static_segments@.len() == 0
        &&& n.param_segment is None
        &&& n.route is None
        &&& n.scope is None
        &&& n.wildcard_segments@.len() == 1
        &&& n.wildcard_segments@[0].slug@ == p.skip(1)
        &&& n.wildcard_segments@[0].child.static_segments@.len() == 0
        &&& n.wildcard_segments@[0].child.param_segment is None
        &&& n.wildcard_segments@[0].child.wildcard_segments@.len() == 0
        &&& slot_of(kind, n.wildcard_segments@[0].child) == Some(id)
        &&& other_slot_of(kind, n.wildcard_segments@[0].child) is None
    } else {
        let e = next_marker(p, 0);
        &&& n.param_segment is None
        &&& n.wildcard_segments@.len() == 0
        &&& n.route is None
        &&& n.scope is None
        &&& n.static_segments@.len() == 1
        &&& n.static_segments@[0].segment@ == p.subrange(0, e)
        &&& fresh_tail(n.static_segments@[0].child, p.skip(e), kind, id)
    }
}

#[via_fn]
proof fn fresh_tail_decreases(n: Node, p: Seq<u8>, kind: SlotKind, id: usize) {
    if p.len() > 0 {
        if p[0] == PARAM_MARK {
            crate::tree::lemma_next_slash_bounds(p, 1);
        } else if p[0] != WILDCARD_MARK {
            lemma_next_marker_bounds(p, 0);
        }
    }
}

/// The exact effect of registering the clean, conflict-free pattern
/// suffix `p` at a node: the walk descends existing structure while it
/// matches byte-exactly, splits a partially shared static literal once,
/// materializes whatever is left as a fresh chain, and merges the
/// identifier into the terminal node's selected slot. Everything not on
/// the walked path — sibling children, the other slot, the order of
/// wildcard slugs — is left exactly as it was.
pub open spec fn inserted(n0: Node, n1: Node, p: Seq<u8>, kind: SlotKind, id: usize) -> bool
    decreases p.len(),
    via inserted_decreases
{
    if p.len() == 0 {
        &&& n1.static_segments@ == n0.static_segments@
        &&& n1.param_segment == n0.param_segment
        &&& n1.wildcard_segments@ == n0.wildcard_segments@
        &&& slot_of(kind, n1) == Some(id)
        &&& (slot_of(kind, n0) is None || slot_of(kind, n0) == Some(id))
        &&& other_slot_of(kind, n1) == other_slot_of(kind, n0)
    } else if p[0] == PARAM_MARK {
        let rest = p.skip(next_slash(p, 1));
        &&& n1.static_segments@ == n0.static_segments@
        &&& n1.wildcard_segments@ == n0.wildcard_segments@
        &&& n1.route == n0.route
        &&& n1.scope == n0.scope
        &&& match (n0.param_segment, n1.param_segment) {
            (Some(c0), Some(c1)) => inserted(*c0, *c1, rest, kind, id),
            (None, Some(c1)) => fresh_tail(*c1, rest, kind, id),
            _ => false,
        }
    } else if p[0] == WILDCARD_MARK {
        &&& n1.static_segments@ == n0.static_segments@
        &&& n1.param_segment == n0.param_segment
        &&& n1.route == n0.route
        &&& n1.scope == n0.scope
        &&& wildcard_registered(kind, n0, n1, p.skip(1), id)
    } else {
        if exists|j: int|
            0 <= j < n0.static_segments@.len() && (#[trigger] n0.static_segments@[j]).segment@.len()
                > 0 && n0.static_segments@[j].segment@[0] == p[0] {
            let j = choose|j: int|
                0 <= j < n0.static_segments@.len()
                    && (#[trigger] n0.static_segments@[j]).segment@.len() > 0
                    && n0.static_segments@[j].segment@[0] == p[0];
            let seg = n0.static_segments@[j].segment@;
            let l = lcp(seg, p);
            &&& n1.static_segments@.len() == n0.static_segments@.len()
            &&& (forall|k: int|
                0 <= k < n0.static_segments@.len() && k != j ==> n1.static_segments@[k]
                    == n0.static_segments@[k])
            &&& n1.param_segment == n0.param_segment
            &&& n1.wildcard_segments@ == n0.wildcard_segments@
            &&& n1.route == n0.route
            &&& n1.scope == n0.scope
            &&& if l == seg.len() {
                &&& n1.static_segments@[j].segment@ == seg
                &&& inserted(
                    n0.static_segments@[j].child,
                    n1.static_segments@[j].child,
                    p.skip(l),
                    kind,
                    id,
                )
            } else {
                &&& n1.static_segments@[j].segment@ == seg.subrange(0, l)
                &&& exists|mid: Node|
                    {
                        &&& mid.static_segments@.len() == 1
                        &&& (#[trigger] mid.static_segments@[0]).segment@ == seg.skip(l)
                        &&& mid.static_segments@[0].child == n0.static_segments@[j].child
                        &&& mid.param_segment is None
                        &&& mid.wildcard_segments@.len() == 0
                        &&& mid.route is None
                        &&& mid.scope is None
                        &&& inserted(mid, n1.static_segments@[j].child, p.skip(l), kind, id)
                    }
            }
        } else {
            let e = next_marker(p, 0);
            let w = n0.static_segments@.len() as int;
            &&& n1.static_segments@.len() == w + 1
            &&& (forall|k: int| 0 <= k < w ==> n1.static_segments@[k] == n0.static_segments@[k])
            &&& n1.static_segments@[w].segment@ == p.subrange(0, e)
            &&& fresh_tail(n1.static_segments@[w].child, p.skip(e), kind, id)
            &&& n1.param_segment == n0.param_segment
            &&& n1.wildcard_segments@ == n0.wildcard_segments@
            &&& n1.route == n0.route
            &&& n1.scope == n0.scope
        }
    }
}

#[via_fn]
proof fn inserted_decreases(n0: Node, n1: Node, p: Seq<u8>, kind: SlotKind, id: usize) {
    if p.len() > 0 {
        if p[0] == PARAM_MARK {
            crate::tree::lemma_next_slash_bounds(p, 1);
        } else if p[0] != WILDCARD_MARK {
            if exists|j: int|
                0 <= j < n0.static_segments@.len()
                    && (#[trigger] n0.static_segments@[j]).segment@.len() > 0
                    && n0.static_segments@[j].segment@[0] == p[0] {
                let j = choose|j: int|
                    0 <= j < n0.static_segments@.len()
                        && (#[trigger] n0.static_segments@[j]).segment@.len() > 0
                        && n0.static_segments@[j].segment@[0] == p[0];
                let seg = n0.static_segments@[j].segment@;
                lemma_lcp_bounds(seg, p);
                assert(lcp(seg, p) >= 1);
            }
        }
    }
}

/// `lcp` lies between zero and both lengths, and is at least one exactly
/// when the first bytes agree.
pub proof fn lemma_lcp_bounds(a: Seq<u8>, b: Seq<u8>)
    ensures
        0 <= lcp(a, b) <= a.len(),
        lcp(a, b) <= b.len(),
        a.len() > 0 && b.len() > 0 && a[0] == b[0] ==> lcp(a, b) >= 1,
    decreases a.len(),
{
    if a.len() > 0 && b.len() > 0 && a[0] == b[0] {
        lemma_lcp_bounds(a.skip(1), b.skip(1));
    }
}

/// A registration into an empty subtree materializes exactly the fresh
/// chain: `inserted` collapses to `fresh_tail` there. In particular a
/// pattern registered into a fresh tree turns the whole root into the
/// pattern's chain.
pub proof fn lemma_inserted_empty(e: Node, n1: Node, p: Seq<u8>, kind: SlotKind, id: usize)
    requires
        is_empty_node(e),
        inserted(e, n1, p, kind, id),
    ensures
        fresh_tail(n1, p, kind, id),
{
    if p.len() == 0 {
    } else if p[0] == PARAM_MARK {
    } else if p[0] == WILDCARD_MARK {
        assert(!(exists|f: int|
            0 <= f < e.wildcard_segments@.len() && (#[trigger] e.wildcard_segments@[f]).slug@
                == p.skip(1)));
    } else {
        assert(!(exists|j: int|
            0 <= j < e.static_segments@.len() && (#[trigger] e.static_segments@[j]).segment@.len()
                > 0 && e.static_segments@[j].segment@[0] == p[0]));
    }
}

/// Would registering `p` with `id` hit an occupant: the node the pattern
/// lands on exists already and its selected slot holds a different
/// identifier. This is exactly the condition under which a registration
/// of a clean pattern fails.
pub open spec fn pat_conflict(kind: SlotKind, n: Node, p: Seq<u8>, id: usize) -> bool {
    match pat_lookup(n, p) {
        Some(m) => slot_of(kind, m) is Some && slot_of(kind, m) != Some(id),
        None => false,
    }
}

/// Nothing conflicts inside an empty subtree.
proof fn lemma_pat_conflict_empty(kind: SlotKind, n: Node, p: Seq<u8>, id: usize)
    requires
        is_empty_node(n),
    ensures
        !pat_conflict(kind, n, p, id),
{
    if p.len() > 0 && p[0] == WILDCARD_MARK {
        assert(!(exists|f: int|
            0 <= f < n.wildcard_segments@.len() && (#[trigger] n.wildcard_segments@[f]).slug@
                == p.skip(1)));
    } else if p.len() > 0 && p[0] != PARAM_MARK {
        assert(!(exists|i: int|
            0 <= i < n.static_segments@.len() && (#[trigger] n.static_segments@[i]).segment@.len()
                > 0 && is_match_at(n.static_segments@[i].segment@, p, 0)));
    }
}

/// Skipping a common prefix commutes with finding the next marker.
proof fn lemma_next_marker_shift(p: Seq<u8>, pos: int, k: int)
    requires
        0 <= pos,
        0 <= k,
        pos + k <= p.len(),
    ensures
        next_marker(p.skip(pos), k) == next_marker(p, pos + k) - pos,
    decreases p.len() - pos - k,
{
    let s = p.skip(pos);
    if k < s.len() {
        assert(s[k] == p[pos + k]);
        if p[pos + k] != PARAM_MARK && p[pos + k] != WILDCARD_MARK {
            lemma_next_marker_shift(p, pos, k + 1);
        }
    }
}

/// Read-only conflict probe: replay the pattern against the tree and
/// report the error a registration would fail with, before anything is
/// mutated. `None` means the registration cannot conflict.
fn probe(node: &Node, pat: &[u8], pos: usize, kind: SlotKind, id: usize) -> (r: Option<ErrorKind>)
    requires
        pos <= pat@.len(),
        wf_node(*node),
    ensures
        (r is Some) == pat_conflict(kind, *node, pat@.skip(pos as int), id),
        r is Some ==> r == Some(
            if scan_wildcard(pat@, pos as int) {
                ErrorKind::DuplicateWildcard
            } else {
                ErrorKind::DuplicateRoute
            },
        ),
    decreases pat@.len() - pos,
{
    let ghost sub = pat@.skip(pos as int);
    if pos == pat.len() {
        proof {
            assert(sub =~= Seq::<u8>::empty());
        }
        let occ: Option<usize> = match kind {
            SlotKind::RouteSlot => node.route,
            SlotKind::ScopeSlot => node.scope,
        };
        match occ {
            Some(other) => if other != id {
                Some(ErrorKind::DuplicateRoute)
            } else {
                None
            },
            None => None,
        }
    } else {
        let c = pat[pos];
        proof {
            assert(sub[0] == pat@[pos as int]);
        }
        if c == PARAM_MARK {
            match &node.param_segment {
                Some(child) => {
                    let end = crate::recognize::find_next_slash(pat, pos + 1);
                    proof {
                        lemma_next_slash_shift(pat@, pos as int, 1);
                        assert(sub.skip(next_slash(sub, 1)) =~= pat@.skip(end as int));
                        assert(next_slash(pat@, pos as int) == next_slash(pat@, pos + 1));
                        assert(scan_wildcard(pat@, pos as int) == scan_wildcard(pat@, end as int));
                    }
                    probe(child, pat, end, kind, id)
                },
                None => None,
            }
        } else if c == WILDCARD_MARK {
            let n = pat.len();
            let slug_slice = vstd::slice::slice_subrange(pat, pos + 1, n);
            proof {
                assert(slug_slice@ =~= sub.skip(1));
            }
            match find_wildcard_slug(node, slug_slice) {
                Some(f) => {
                    proof {
                        lemma_pat_lookup_wild(*node, sub, f as int);
                    }
                    let occ: Option<usize> = match kind {
                        SlotKind::RouteSlot => node.wildcard_segments[f].child.route,
                        SlotKind::ScopeSlot => node.wildcard_segments[f].child.scope,
                    };
                    match occ {
                        Some(other) => if other != id {
                            Some(ErrorKind::DuplicateWildcard)
                        } else {
                            None
                        },
                        None => None,
                    }
                },
                None => {
                    proof {
                        lemma_pat_lookup_wild_none(*node, sub);
                    }
                    None
                },
            }
        } else {
            match find_lcp_child(node, pat, pos) {
                Some(pair) => {
                    let i = pair.0;
                    let l = pair.1;
                    let seg_len = node.static_segments[i].segment.len();
                    if l == seg_len {
                        proof {
                            let seg = node.static_segments@[i as int].segment@;
                            assert(is_match_at(seg, sub, 0)) by {
                                assert(seg.subrange(0, l as int) =~= seg);
                                assert(sub.subrange(0, l as int) =~= pat@.subrange(
                                    pos as int,
                                    pos + l,
                                ));
                            }
                            lemma_pat_lookup_static(*node, sub, i as int);
                            assert(sub.skip(l as int) =~= pat@.skip(pos + l));
                            assert(forall|m: int|
                                pos <= m < pos + l ==> (#[trigger] pat@[m]) != PARAM_MARK && pat@[m]
                                    != WILDCARD_MARK) by {
                                assert(forall|m: int|
                                    pos <= m < pos + l ==> pat@[m] == seg[m - pos]) by {
                                    assert(forall|m: int|
                                        pos <= m < pos + l ==> pat@.subrange(pos as int, pos + l)[m
                                            - pos] == pat@[m]);
                                }
                            }
                            lemma_scan_skip_literals(pat@, pos as int, pos + l);
                        }
                        probe(&node.static_segments[i].child, pat, pos + l, kind, id)
                    } else {
                        proof {
                            assert forall|j: int|
                                0 <= j < node.static_segments@.len() implies !is_match_at(
                                (#[trigger] node.static_segments@[j]).segment@,
                                sub,
                                0,
                            ) by {
                                let seg = node.static_segments@[i as int].segment@;
                                let sj = node.static_segments@[j].segment@;
                                if is_match_at(sj, sub, 0) {
                                    assert(sj[0] == sub[0]) by {
                                        assert(sub.subrange(0, sj.len() as int)[0] == sub[0]);
                                    }
                                    assert(seg[0] == sub[0]) by {
                                        assert(seg.subrange(0, l as int)[0] == seg[0]);
                                        assert(pat@.subrange(pos as int, pos + l)[0] == pat@[
                                            pos as int
                                        ]);
                                    }
                                    if j != i as int {
                                        if j < i as int {
                                            assert(sj[0] != seg[0]);
                                        } else {
                                            assert(seg[0] != sj[0]);
                                        }
                                    }
                                    assert(j == i as int);
                                    // A full-prefix match would extend the
                                    // shared run past its divergence point.
                                    assert(seg.len() <= sub.len());
                                    assert(l < seg.len());
                                    assert(pos + l < pat@.len());
                                    assert(seg[l as int] == sub[l as int]) by {
                                        assert(sub.subrange(0, seg.len() as int)[l as int]
                                            == sub[l as int]);
                                    }
                                    assert(sub[l as int] == pat@[pos + l]);
                                    assert(seg[l as int] != pat@[pos + l]);
                                }
                            }
                            lemma_pat_lookup_static_none(*node, sub);
                        }
                        None
                    }
                },
                None => {
                    proof {
                        assert forall|j: int|
                            0 <= j < node.static_segments@.len() implies !is_match_at(
                            (#[trigger] node.static_segments@[j]).segment@,
                            sub,
                            0,
                        ) by {
                            let sj = node.static_segments@[j].segment@;
                            if is_match_at(sj, sub, 0) {
                                assert(sj.len() > 0);
                                assert(sj[0] == sub[0]) by {
                                    assert(sub.subrange(0, sj.len() as int)[0] == sub[0]);
                                }
                            }
                        }
                        lemma_pat_lookup_static_none(*node, sub);
                    }
                    None
                },
            }
        }
    }
}


/// Merge `id` into the `kind` slot of `node`: an empty slot takes it, the
/// identical occupant keeps it, a different occupant is a conflict. `wild`
/// selects the error reported for a conflict at a wildcard child.
fn merge_slot(node: &mut Node, kind: SlotKind, id: usize, wild: bool) -> (r: Result<(), Error>)
    ensures
        final(node).static_segments == old(node).static_segments,
        final(node).param_segment == old(node).param_segment,
        final(node).wildcard_segments == old(node).wildcard_segments,
        kind is RouteSlot ==> final(node).scope == old(node).scope,
        kind is ScopeSlot ==> final(node).route == old(node).route,
        match r {
            Ok(()) => slot_of(kind, *final(node)) == Some(id) && (slot_of(kind, *old(node)) is None
                || slot_of(kind, *old(node)) == Some(id)),
            Err(e) => *final(node) == *old(node) && slot_of(kind, *old(node)) is Some && slot_of(
                kind,
                *old(node),
            ) != Some(id) && e.kind == (if wild {
                ErrorKind::DuplicateWildcard
            } else {
                ErrorKind::DuplicateRoute
            }),
        },
{
    let occupant: Option<usize> = match kind {
        SlotKind::RouteSlot => node.route,
        SlotKind::ScopeSlot => node.scope,
    };
    match occupant {
        Some(other) => {
            if other == id {
                Ok(())
            } else if wild {
                Err(Error { kind: ErrorKind::DuplicateWildcard })
            } else {
                Err(Error { kind: ErrorKind::DuplicateRoute })
            }
        },
        None => {
            match kind {
                SlotKind::RouteSlot => {
                    node.route = Some(id);
                },
                SlotKind::ScopeSlot => {
                    node.scope = Some(id);
                },
            }
            Ok(())
        },
    }
}

/// Consume a parameter name: the bytes after the `:` at `pos`, up to the
/// next `/` or the end of the pattern, recorded in `names`.
fn extract_param(pat: &[u8], pos: usize, names: &mut ParamNames) -> (end: usize)
    requires
        pos < pat@.len(),
        pat@[pos as int] == PARAM_MARK,
    ensures
        end == next_slash(pat@, pos as int),
        pos < end <= pat@.len(),
        final(names).has_wildcard == old(names).has_wildcard,
        final(names).names.deep_view() == old(names).names.deep_view().push(
            pat@.subrange(pos + 1, end as int),
        ),
{
    let end = crate::recognize::find_next_slash(pat, pos);
    proof {
        crate::tree::lemma_next_slash_bounds(pat@, pos + 1);
        assert(next_slash(pat@, pos as int) == next_slash(pat@, pos + 1));
    }
    let name_slice = vstd::slice::slice_subrange(pat, pos + 1, end);
    let name = vstd::slice::slice_to_vec(name_slice);
    names.names.push(name);
    proof {
        assert(names.names.deep_view() =~~= old(names).names.deep_view().push(
            pat@.subrange(pos + 1, end as int),
        ));
    }
    end
}

/// The length of the longest common prefix of `seg` and the pattern tail
/// starting at `pos`.
fn lcp_len(seg: &[u8], pat: &[u8], pos: usize) -> (l: usize)
    requires
        pos <= pat@.len(),
    ensures
        l <= seg@.len(),
        pos + l <= pat@.len(),
        seg@.subrange(0, l as int) == pat@.subrange(pos as int, pos + l),
        l < seg@.len() && pos + l < pat@.len() ==> seg@[l as int] != pat@[pos + l],
{
    let n = pat.len();
    let mut l: usize = 0;
    while l < seg.len() && pos + l < n && seg[l] == pat[pos + l]
        invariant
            n == pat@.len(),
            pos <= n,
            l <= seg@.len(),
            pos + l <= n,
            forall|m: int| 0 <= m < l ==> seg@[m] == pat@[pos + m],
        decreases seg@.len() - l,
    {
        l = l + 1;
    }
    proof {
        assert(seg@.subrange(0, l as int) =~= pat@.subrange(pos as int, pos + l));
    }
    l
}

/// The first static child of `node` sharing a non-empty prefix with the
/// pattern tail at `pos`, with the shared length; `None` when no child
/// starts with the tail's first byte.
fn find_lcp_child(node: &Node, pat: &[u8], pos: usize) -> (r: Option<(usize, usize)>)
    requires
        pos < pat@.len(),
    ensures
        match r {
            Some(il) => il.0 < node.static_segments@.len() && 1 <= il.1
                && il.1 <= node.static_segments@[il.0 as int].segment@.len() && pos + il.1
                <= pat@.len() && node.static_segments@[il.0 as int].segment@.subrange(
                0,
                il.1 as int,
            ) == pat@.subrange(pos as int, pos + il.1) && (il.1
                < node.static_segments@[il.0 as int].segment@.len() && pos + il.1 < pat@.len()
                ==> node.static_segments@[il.0 as int].segment@[il.1 as int] != pat@[pos + il.1]),
            None => forall|j: int|
                0 <= j < node.static_segments@.len() ==> ((#[trigger] node.static_segments@[j])
                    .segment@.len() == 0 || node.static_segments@[j].segment@[0] != pat@[
                    pos as int
                ]),
        },
{
    let mut k: usize = 0;
    while k < node.static_segments.len()
        invariant
            pos < pat@.len(),
            k <= node.static_segments@.len(),
            forall|j: int|
                0 <= j < k ==> ((#[trigger] node.static_segments@[j]).segment@.len() == 0
                    || node.static_segments@[j].segment@[0] != pat@[pos as int]),
        decreases node.static_segments@.len() - k,
    {
        let l = lcp_len(node.static_segments[k].segment.as_slice(), pat, pos);
        if l > 0 {
            proof {
                let seg = node.static_segments@[k as int].segment@;
                assert(seg.subrange(0, l as int)[0] == seg[0]);
                assert(pat@.subrange(pos as int, pos + l)[0] == pat@[pos as int]);
            }
            return Some((k, l));
        }
        proof {
            let seg = node.static_segments@[k as int].segment@;
            if seg.len() > 0 {
                assert(seg.subrange(0, 0) =~= pat@.subrange(pos as int, pos as int));
                assert(seg[0] != pat@[pos as int]);
            }
        }
        k = k + 1;
    }
    None
}

/// Is `n1` the result of splitting static child `i` of `n0` at length `l`:
/// the child's literal truncated to `l`, and a fresh intermediate node
/// holding the unshared tail and the original subtree?
pub open spec fn is_split_of(n1: Node, n0: Node, i: int, l: int) -> bool {
    let s0 = n0.static_segments@;
    let s1 = n1.static_segments@;
    &&& 0 <= i < s0.len()
    &&& s1.len() == s0.len()
    &&& 0 < l < s0[i].segment@.len()
    &&& forall|j: int| 0 <= j < s0.len() && j != i ==> s1[j] == s0[j]
    &&& s1[i].segment@ == s0[i].segment@.subrange(0, l)
    &&& {
        let mid = s1[i].child;
        &&& mid.static_segments@.len() == 1
        &&& mid.static_segments@[0].segment@ == s0[i].segment@.skip(l)
        &&& mid.static_segments@[0].child == s0[i].child
        &&& mid.param_segment is None
        &&& mid.wildcard_segments@.len() == 0
        &&& mid.route is None
        &&& mid.scope is None
    }
    &&& n1.param_segment == n0.param_segment
    &&& n1.wildcard_segments == n0.wildcard_segments
    &&& n1.route == n0.route
    &&& n1.scope == n0.scope
}

/// Splitting a static child changes no registered route or scope: the
/// fresh intermediate node carries no terminal data, and descents that
/// once consumed the whole literal now consume its two halves.
pub proof fn lemma_split_preserves(n0: Node, n1: Node, i: int, l: int)
    requires
        wf_node(n0),
        is_split_of(n1, n0, i, l),
    ensures
        wf_node(n1),
        lookups_equal(n0, n1),
        forall|b: nat| #[trigger] ids_below(n0, b) ==> ids_below(n1, b),
{
    let s0 = n0.static_segments@;
    let s1 = n1.static_segments@;
    let seg = s0[i].segment@;
    let head = s1[i].segment@;
    let mid = s1[i].child;
    let tail = mid.static_segments@[0].segment@;
    let c0 = s0[i].child;

    // Well-formedness of the split node.
    assert(head[0] == seg[0]);
    assert(static_segs_shallow_wf(s1)) by {
        assert(forall|j: int| 0 <= j < s1.len() ==> (#[trigger] s1[j]).segment@.len() > 0);
        assert(forall|j: int|
            0 <= j < s1.len() ==> no_marker((#[trigger] s1[j]).segment@)) by {
            assert forall|j: int| 0 <= j < s1.len() implies no_marker(
                (#[trigger] s1[j]).segment@,
            ) by {
                if j == i {
                    assert(forall|m: int|
                        0 <= m < head.len() ==> head[m] == seg[m] && seg[m] != PARAM_MARK && seg[m]
                            != WILDCARD_MARK);
                }
            }
        }
        assert(forall|j: int, k: int|
            0 <= j < k < s1.len() ==> s1[j].segment@[0] != s1[k].segment@[0]);
    }
    assert(static_segs_shallow_wf(mid.static_segments@)) by {
        assert(tail.len() > 0);
        assert(no_marker(tail)) by {
            assert(forall|m: int| 0 <= m < tail.len() ==> tail[m] == seg[m + l]);
        }
    }
    assert(wf_node(mid));
    assert(wf_node(n1));

    // Identifier bounds.
    assert forall|b: nat| #[trigger] ids_below(n0, b) implies ids_below(n1, b) by {
        assert(ids_below(c0, b));
        assert(ids_below(mid, b));
    }

    // Lookup equality.
    assert forall|q: Seq<u8>| #[trigger] lookup_route(n1, q) == lookup_route(n0, q) by {
        lemma_split_lookup_at(n0, n1, i, l, q);
    }
    assert forall|q: Seq<u8>| #[trigger] lookup_scope(n1, q) == lookup_scope(n0, q) by {
        lemma_split_lookup_at(n0, n1, i, l, q);
    }
}

/// One pattern's route and scope survive a split unchanged.
proof fn lemma_split_lookup_at(n0: Node, n1: Node, i: int, l: int, q: Seq<u8>)
    requires
        wf_node(n0),
        is_split_of(n1, n0, i, l),
        wf_node(n1),
    ensures
        lookup_route(n1, q) == lookup_route(n0, q),
        lookup_scope(n1, q) == lookup_scope(n0, q),
{
    let s0 = n0.static_segments@;
    let s1 = n1.static_segments@;
    let seg = s0[i].segment@;
    let head = s1[i].segment@;
    let mid = s1[i].child;
    let tail = mid.static_segments@[0].segment@;
    let c0 = s0[i].child;
    if q.len() > 0 {
            if exists|j: int|
                0 <= j < s0.len() && j != i && is_match_at((#[trigger] s0[j]).segment@, q, 0) {
                let j = choose|j: int|
                    0 <= j < s0.len() && j != i && is_match_at((#[trigger] s0[j]).segment@, q, 0);
                lemma_lookup_in_segs_step(s0, q, j);
                lemma_lookup_in_segs_step(s1, q, j);
            } else if is_match_at(head, q, 0) {
                lemma_lookup_in_segs_step(s1, q, i);
                let q1 = q.skip(l);
                if is_match_at(seg, q, 0) {
                    // The whole literal matched before; both halves match now.
                    lemma_lookup_in_segs_step(s0, q, i);
                    assert(is_match_at(tail, q1, 0)) by {
                        assert(q1.subrange(0, tail.len() as int) =~= tail);
                    }
                    assert(q1.len() > 0);
                    lemma_lookup_in_segs_step(mid.static_segments@, q1, 0);
                    assert(q1.skip(tail.len() as int) =~= q.skip(seg.len() as int));
                    assert(lookup_node(n1, q) == lookup_node(n0, q));
                } else {
                    // The pattern ends or diverges inside the old literal:
                    // it reached no node before, and now stops at or inside
                    // the fresh intermediate node, which carries nothing.
                    assert forall|j: int| 0 <= j < s0.len() implies !is_match_at(
                        (#[trigger] s0[j]).segment@,
                        q,
                        0,
                    ) by {
                        if j != i && is_match_at(s0[j].segment@, q, 0) {
                            assert(s0[j].segment@[0] == q[0]);
                            assert(head[0] == q[0]);
                        }
                    }
                    lemma_lookup_in_segs_none(s0, q);
                    if q1.len() == 0 {
                        assert(lookup_node(mid, q1) == Some(mid));
                    } else {
                        assert(!is_match_at(tail, q1, 0)) by {
                            if is_match_at(tail, q1, 0) {
                                assert(seg.len() <= q.len());
                                assert forall|m: int| 0 <= m < seg.len() implies q[m] == seg[m] by {
                                    if m < l {
                                        assert(head[m] == seg[m]);
                                        assert(q.subrange(0, head.len() as int)[m] == q[m]);
                                    } else {
                                        assert(tail[m - l] == seg[m]);
                                        assert(q1.subrange(0, tail.len() as int)[m - l] == q1[m
                                            - l]);
                                        assert(q1[m - l] == q[m]);
                                    }
                                }
                                assert(q.subrange(0, seg.len() as int) =~= seg);
                                assert(is_match_at(seg, q, 0));
                            }
                        }
                        assert forall|j: int| 0 <= j < mid.static_segments@.len()
                            implies !is_match_at(
                            (#[trigger] mid.static_segments@[j]).segment@,
                            q1,
                            0,
                        ) by {}
                        lemma_lookup_in_segs_none(mid.static_segments@, q1);
                    }
                }
            } else {
                // No child matches on either side.
                assert forall|j: int| 0 <= j < s0.len() implies !is_match_at(
                    (#[trigger] s0[j]).segment@,
                    q,
                    0,
                ) by {
                    if j == i && is_match_at(s0[j].segment@, q, 0) {
                        assert(is_match_at(head, q, 0)) by {
                            assert(q.subrange(0, head.len() as int) =~= head);
                        }
                    }
                }
                assert forall|j: int| 0 <= j < s1.len() implies !is_match_at(
                    (#[trigger] s1[j]).segment@,
                    q,
                    0,
                ) by {}
                lemma_lookup_in_segs_none(s0, q);
                lemma_lookup_in_segs_none(s1, q);
            }
        }
}


/// A node whose static children and terminal slots are unchanged registers
/// exactly the same routes and scopes, whatever happened to its parameter
/// or wildcard children.
proof fn lemma_lookup_same_statics(n0: Node, n1: Node)
    requires
        n1.static_segments@ == n0.static_segments@,
        n1.route == n0.route,
        n1.scope == n0.scope,
    ensures
        lookups_equal(n0, n1),
{
    assert forall|q: Seq<u8>| #[trigger] lookup_route(n1, q) == lookup_route(n0, q) by {
        if q.len() > 0 {
            assert(lookup_in_segs(n1.static_segments@, q) == lookup_in_segs(
                n0.static_segments@,
                q,
            ));
        }
    }
    assert forall|q: Seq<u8>| #[trigger] lookup_scope(n1, q) == lookup_scope(n0, q) by {
        if q.len() > 0 {
            assert(lookup_in_segs(n1.static_segments@, q) == lookup_in_segs(
                n0.static_segments@,
                q,
            ));
        }
    }
}

/// When only the subtree below static child `i` changed, descents through
/// other children are untouched, and descents through child `i` reduce to
/// the old and new subtree respectively.
proof fn lemma_lookup_update_child(n0: Node, n1: Node, i: int)
    requires
        static_segs_shallow_wf(n0.static_segments@),
        0 <= i < n0.static_segments@.len(),
        n1.static_segments@.len() == n0.static_segments@.len(),
        forall|j: int|
            0 <= j < n0.static_segments@.len() && j != i ==> n1.static_segments@[j]
                == n0.static_segments@[j],
        n1.static_segments@[i].segment@ == n0.static_segments@[i].segment@,
    ensures
        static_segs_shallow_wf(n1.static_segments@),
        forall|q: Seq<u8>|
            q.len() > 0 && !is_match_at(n0.static_segments@[i].segment@, q, 0)
                ==> #[trigger] lookup_in_segs(n1.static_segments@, q) == lookup_in_segs(
                n0.static_segments@,
                q,
            ),
        forall|q: Seq<u8>|
            q.len() > 0 && is_match_at(n0.static_segments@[i].segment@, q, 0)
                ==> #[trigger] lookup_in_segs(n1.static_segments@, q) == lookup_node(
                n1.static_segments@[i].child,
                q.skip(n0.static_segments@[i].segment@.len() as int),
            ) && lookup_in_segs(n0.static_segments@, q) == lookup_node(
                n0.static_segments@[i].child,
                q.skip(n0.static_segments@[i].segment@.len() as int),
            ),
{
    let s0 = n0.static_segments@;
    let s1 = n1.static_segments@;
    assert(forall|j: int| 0 <= j < s1.len() ==> (#[trigger] s1[j]).segment@ == s0[j].segment@);
    assert(static_segs_shallow_wf(s1)) by {
        assert(forall|j: int| 0 <= j < s1.len() ==> (#[trigger] s1[j]).segment@.len() > 0);
        assert(forall|j: int| 0 <= j < s1.len() ==> no_marker((#[trigger] s1[j]).segment@));
        assert(forall|j: int, k: int|
            0 <= j < k < s1.len() ==> s1[j].segment@[0] != s1[k].segment@[0]);
    }
    assert forall|q: Seq<u8>|
        q.len() > 0 && !is_match_at(s0[i].segment@, q, 0) implies #[trigger] lookup_in_segs(
        s1,
        q,
    ) == lookup_in_segs(s0, q) by {
        if exists|j: int| 0 <= j < s0.len() && is_match_at((#[trigger] s0[j]).segment@, q, 0) {
            let j = choose|j: int|
                0 <= j < s0.len() && is_match_at((#[trigger] s0[j]).segment@, q, 0);
            assert(j != i);
            lemma_lookup_in_segs_step(s0, q, j);
            lemma_lookup_in_segs_step(s1, q, j);
        } else {
            assert forall|j: int| 0 <= j < s1.len() implies !is_match_at(
                (#[trigger] s1[j]).segment@,
                q,
                0,
            ) by {}
            lemma_lookup_in_segs_none(s0, q);
            lemma_lookup_in_segs_none(s1, q);
        }
    }
    assert forall|q: Seq<u8>|
        q.len() > 0 && is_match_at(s0[i].segment@, q, 0) implies #[trigger] lookup_in_segs(s1, q)
        == lookup_node(s1[i].child, q.skip(s0[i].segment@.len() as int)) && lookup_in_segs(s0, q)
        == lookup_node(s0[i].child, q.skip(s0[i].segment@.len() as int)) by {
        lemma_lookup_in_segs_step(s0, q, i);
        lemma_lookup_in_segs_step(s1, q, i);
    }
}

/// Appending a static child whose first byte no sibling shares leaves
/// every old descent unchanged; descents matching the new literal reduce
/// to the new subtree, and found nothing before.
proof fn lemma_lookup_push(n0: Node, n1: Node)
    requires
        static_segs_shallow_wf(n0.static_segments@),
        n1.static_segments@.len() == n0.static_segments@.len() + 1,
        forall|j: int|
            0 <= j < n0.static_segments@.len() ==> n1.static_segments@[j]
                == n0.static_segments@[j],
        ({
            let ns = n1.static_segments@[n0.static_segments@.len() as int];
            &&& ns.segment@.len() > 0
            &&& no_marker(ns.segment@)
            &&& forall|j: int|
                0 <= j < n0.static_segments@.len() ==> (#[trigger] n0.static_segments@[j]).segment@[0]
                    != ns.segment@[0]
        }),
    ensures
        static_segs_shallow_wf(n1.static_segments@),
        forall|q: Seq<u8>|
            q.len() > 0 && !is_match_at(
                n1.static_segments@[n0.static_segments@.len() as int].segment@,
                q,
                0,
            ) ==> #[trigger] lookup_in_segs(n1.static_segments@, q) == lookup_in_segs(
                n0.static_segments@,
                q,
            ),
        forall|q: Seq<u8>|
            q.len() > 0 && is_match_at(
                n1.static_segments@[n0.static_segments@.len() as int].segment@,
                q,
                0,
            ) ==> #[trigger] lookup_in_segs(n1.static_segments@, q) == lookup_node(
                n1.static_segments@[n0.static_segments@.len() as int].child,
                q.skip(n1.static_segments@[n0.static_segments@.len() as int].segment@.len() as int),
            ) && lookup_in_segs(n0.static_segments@, q) is None,
{
    let s0 = n0.static_segments@;
    let s1 = n1.static_segments@;
    let w = s0.len() as int;
    let ns = s1[w];
    assert(static_segs_shallow_wf(s1)) by {
        assert(forall|j: int| 0 <= j < w ==> (#[trigger] s1[j]).segment@ == s0[j].segment@);
        assert(forall|j: int| 0 <= j < s1.len() ==> (#[trigger] s1[j]).segment@.len() > 0);
        assert(forall|j: int| 0 <= j < s1.len() ==> no_marker((#[trigger] s1[j]).segment@));
        assert(forall|j: int, k: int|
            0 <= j < k < s1.len() ==> s1[j].segment@[0] != s1[k].segment@[0]);
    }
    assert forall|q: Seq<u8>|
        q.len() > 0 && !is_match_at(ns.segment@, q, 0) implies #[trigger] lookup_in_segs(s1, q)
        == lookup_in_segs(s0, q) by {
        if exists|j: int| 0 <= j < s0.len() && is_match_at((#[trigger] s0[j]).segment@, q, 0) {
            let j = choose|j: int|
                0 <= j < s0.len() && is_match_at((#[trigger] s0[j]).segment@, q, 0);
            lemma_lookup_in_segs_step(s0, q, j);
            lemma_lookup_in_segs_step(s1, q, j);
        } else {
            assert forall|j: int| 0 <= j < s1.len() implies !is_match_at(
                (#[trigger] s1[j]).segment@,
                q,
                0,
            ) by {}
            lemma_lookup_in_segs_none(s0, q);
            lemma_lookup_in_segs_none(s1, q);
        }
    }
    assert forall|q: Seq<u8>|
        q.len() > 0 && is_match_at(ns.segment@, q, 0) implies #[trigger] lookup_in_segs(s1, q)
        == lookup_node(ns.child, q.skip(ns.segment@.len() as int)) && lookup_in_segs(s0, q)
        is None by {
        lemma_lookup_in_segs_step(s1, q, w);
        assert forall|j: int| 0 <= j < s0.len() implies !is_match_at(
            (#[trigger] s0[j]).segment@,
            q,
            0,
        ) by {
            if is_match_at(s0[j].segment@, q, 0) {
                assert(s0[j].segment@[0] == q[0]);
                assert(ns.segment@[0] == q[0]);
            }
        }
        lemma_lookup_in_segs_none(s0, q);
    }
}

/// `next_marker` stays within `[off, p.len()]`, lands on a marker or the
/// end, and skips no marker on the way.
pub proof fn lemma_next_marker_bounds(p: Seq<u8>, off: int)
    requires
        0 <= off <= p.len(),
    ensures
        off <= next_marker(p, off) <= p.len(),
        next_marker(p, off) < p.len() ==> (p[next_marker(p, off)] == PARAM_MARK || p[next_marker(
            p,
            off,
        )] == WILDCARD_MARK),
        forall|m: int|
            off <= m < next_marker(p, off) ==> p[m] != PARAM_MARK && p[m] != WILDCARD_MARK,
    decreases p.len() - off,
{
    if off < p.len() && p[off] != PARAM_MARK && p[off] != WILDCARD_MARK {
        lemma_next_marker_bounds(p, off + 1);
    }
}

/// The position of the first `:` or `*` at or after `pos`, or the end of
/// the pattern.
fn scan_to_marker(pat: &[u8], pos: usize) -> (end: usize)
    requires
        pos <= pat@.len(),
    ensures
        end == next_marker(pat@, pos as int),
        pos <= end <= pat@.len(),
{
    let n = pat.len();
    let mut j: usize = pos;
    while j < n
        invariant
            n == pat@.len(),
            pos <= j <= n,
            next_marker(pat@, pos as int) == next_marker(pat@, j as int),
        decreases n - j,
    {
        if pat[j] == PARAM_MARK || pat[j] == WILDCARD_MARK {
            return j;
        }
        j = j + 1;
    }
    j
}

/// Split static child `i` of `node` at length `l`: truncate its literal to
/// the shared prefix and push the unshared tail, with the original
/// subtree, one level down.
fn split_static(node: &mut Node, i: usize, l: usize)
    requires
        wf_node(*old(node)),
        i < old(node).static_segments@.len(),
        0 < l < old(node).static_segments@[i as int].segment@.len(),
    ensures
        is_split_of(*final(node), *old(node), i as int, l as int),
        wf_node(*final(node)),
        lookups_equal(*old(node), *final(node)),
        forall|b: nat| #[trigger] ids_below(*old(node), b) ==> ids_below(*final(node), b),
{
    let seg = node.static_segments.remove(i);
    let head_slice = vstd::slice::slice_subrange(seg.segment.as_slice(), 0, l);
    let head = vstd::slice::slice_to_vec(head_slice);
    let tail_slice = vstd::slice::slice_subrange(seg.segment.as_slice(), l, seg.segment.len());
    let tail = vstd::slice::slice_to_vec(tail_slice);
    let mut mid_children: Vec<StaticSegment> = Vec::new();
    mid_children.push(StaticSegment { segment: tail, child: seg.child });
    let mid = Node {
        static_segments: mid_children,
        param_segment: None,
        wildcard_segments: Vec::new(),
        route: None,
        scope: None,
    };
    node.static_segments.insert(i, StaticSegment { segment: head, child: mid });
    proof {
        assert(old(node).static_segments@[i as int].segment@.skip(l as int) =~= old(
            node,
        ).static_segments@[i as int].segment@.subrange(
            l as int,
            old(node).static_segments@[i as int].segment@.len() as int,
        ));
        assert forall|j: int|
            0 <= j < old(node).static_segments@.len() && j != i as int implies node.static_segments@[j]
            == old(node).static_segments@[j] by {
            if j < i as int {
                assert(node.static_segments@[j] == old(node).static_segments@.remove(i as int)[j]);
            } else {
                assert(node.static_segments@[j] == old(node).static_segments@.remove(
                    i as int,
                )[j - 1]);
            }
        }
        assert(is_split_of(*node, *old(node), i as int, l as int));
        lemma_split_preserves(*old(node), *node, i as int, l as int);
    }
}

/// Does some wildcard child with the identical slug already hold a
/// different identifier in the selected slot? This is exactly the
/// `DuplicateWildcard` condition.
pub open spec fn wildcard_conflict(kind: SlotKind, n: Node, slug: Seq<u8>, id: usize) -> bool {
    exists|f: int|
        0 <= f < n.wildcard_segments@.len() && (#[trigger] n.wildcard_segments@[f]).slug@ == slug
            && slot_of(kind, n.wildcard_segments@[f].child) is Some && slot_of(
            kind,
            n.wildcard_segments@[f].child,
        ) != Some(id)
}

/// The exact effect of registering a wildcard slug on a node's wildcard
/// children: the child with the identical slug (unique, by the distinct-
/// slug invariant) takes the identifier into the selected slot, everything
/// else about it and its siblings unchanged; or, when no such child
/// exists, a fresh child carrying only that slot is appended. Children
/// never move, so the registration order of slugs is preserved.
pub open spec fn wildcard_registered(kind: SlotKind, n0: Node, n1: Node, slug: Seq<u8>, id: usize) -> bool {
    let ws0 = n0.wildcard_segments@;
    let ws1 = n1.wildcard_segments@;
    if exists|f: int| 0 <= f < ws0.len() && (#[trigger] ws0[f]).slug@ == slug {
        let f = choose|f: int| 0 <= f < ws0.len() && (#[trigger] ws0[f]).slug@ == slug;
        &&& ws1.len() == ws0.len()
        &&& forall|j: int| 0 <= j < ws0.len() && j != f ==> ws1[j] == ws0[j]
        &&& ws1[f].slug@ == slug
        &&& ws1[f].child.static_segments == ws0[f].child.static_segments
        &&& ws1[f].child.param_segment == ws0[f].child.param_segment
        &&& ws1[f].child.wildcard_segments == ws0[f].child.wildcard_segments
        &&& slot_of(kind, ws1[f].child) == Some(id)
        &&& (slot_of(kind, ws0[f].child) is None || slot_of(kind, ws0[f].child) == Some(id))
        &&& (kind is RouteSlot ==> ws1[f].child.scope == ws0[f].child.scope)
        &&& (kind is ScopeSlot ==> ws1[f].child.route == ws0[f].child.route)
    } else {
        &&& ws1.len() == ws0.len() + 1
        &&& forall|j: int| 0 <= j < ws0.len() ==> ws1[j] == ws0[j]
        &&& ws1[ws0.len() as int].slug@ == slug
        &&& ws1[ws0.len() as int].child.static_segments@.len() == 0
        &&& ws1[ws0.len() as int].child.param_segment is None
        &&& ws1[ws0.len() as int].child.wildcard_segments@.len() == 0
        &&& slot_of(kind, ws1[ws0.len() as int].child) == Some(id)
        &&& (kind is RouteSlot ==> ws1[ws0.len() as int].child.scope is None)
        &&& (kind is ScopeSlot ==> ws1[ws0.len() as int].child.route is None)
    }
}

/// The first wildcard child of `node` whose slug equals `slug`, if any.
fn find_wildcard_slug(node: &Node, slug: &[u8]) -> (r: Option<usize>)
    ensures
        match r {
            Some(f) => f < node.wildcard_segments@.len() && node.wildcard_segments@[
                f as int
            ].slug@ == slug@,
            None => forall|j: int|
                0 <= j < node.wildcard_segments@.len()
                    ==> (#[trigger] node.wildcard_segments@[j]).slug@ != slug@,
        },
{
    let mut k: usize = 0;
    while k < node.wildcard_segments.len()
        invariant
            k <= node.wildcard_segments@.len(),
            forall|j: int| 0 <= j < k ==> (#[trigger] node.wildcard_segments@[j]).slug@ != slug@,
        decreases node.wildcard_segments@.len() - k,
    {
        if crate::tree::bytes_eq(node.wildcard_segments[k].slug.as_slice(), slug) {
            return Some(k);
        }
        k = k + 1;
    }
    None
}

/// Register a wildcard: everything after the `*` at `pos` is the slug. A
/// wildcard child with an identical slug takes the identifier into its
/// terminal slot (a different occupant is a `DuplicateWildcard` conflict);
/// otherwise a fresh wildcard child is appended. This ends the walk.
fn insert_wildcard(
    node: &mut Node,
    pat: &[u8],
    pos: usize,
    kind: SlotKind,
    id: usize,
    names: &mut ParamNames,
) -> (r: Result<(), Error>)
    requires
        pos < pat@.len(),
        pat@[pos as int] == WILDCARD_MARK,
        wf_node(*old(node)),
        !wildcard_conflict(kind, *old(node), pat@.skip(pos + 1), id),
    ensures
        r is Ok,
        wf_node(*final(node)),
        lookups_equal(*old(node), *final(node)),
        ids_extended(*old(node), *final(node), id),
        final(node).static_segments == old(node).static_segments,
        final(node).param_segment == old(node).param_segment,
        final(node).route == old(node).route,
        final(node).scope == old(node).scope,
        wildcard_registered(kind, *old(node), *final(node), pat@.skip(pos + 1), id),
        final(names).has_wildcard == true,
        final(names).names == old(names).names,
{
    let ghost n0 = *node;
    names.has_wildcard = true;
    let n = pat.len();
    let slug_slice = vstd::slice::slice_subrange(pat, pos + 1, n);
    let slug = vstd::slice::slice_to_vec(slug_slice);
    let found = find_wildcard_slug(node, slug.as_slice());
    match found {
        Some(f) => {
            let ghost c0 = node.wildcard_segments@[f as int].child;
            let r = merge_slot(&mut node.wildcard_segments[f].child, kind, id, true);
            proof {
                let c1 = node.wildcard_segments@[f as int].child;
                assert(wf_node(c1)) by {
                    assert(wf_node(c0));
                }
                assert(wf_node(*node)) by {
                    assert(forall|j: int|
                        0 <= j < node.wildcard_segments@.len() && j != f as int
                            ==> node.wildcard_segments@[j] == n0.wildcard_segments@[j]);
                    assert(forall|j: int|
                        0 <= j < node.wildcard_segments@.len() && j != f as int ==> wf_node(
                            (#[trigger] node.wildcard_segments@[j]).child,
                        ));
                    assert(forall|j: int, m: int|
                        0 <= j < m < node.wildcard_segments@.len()
                            ==> node.wildcard_segments@[j].slug@ != node.wildcard_segments@[
                            m
                        ].slug@) by {
                        assert(node.wildcard_segments@[f as int].slug@ == n0.wildcard_segments@[
                            f as int
                        ].slug@);
                    }
                }
                lemma_lookup_same_statics(n0, *node);
                assert forall|b: nat| ids_below(n0, b) && id < b implies #[trigger] ids_below(
                    *node,
                    b,
                ) by {
                    assert(ids_below(c0, b));
                    assert(ids_below(c1, b));
                }
                if r is Err {
                    assert(wildcard_conflict(kind, n0, pat@.skip(pos + 1), id)) by {
                        assert(n0.wildcard_segments@[f as int].slug@ == pat@.skip(pos + 1));
                    }
                    assert(false);
                }
            }
            r
        },
        None => {
            let mut child = Node::empty();
            match kind {
                SlotKind::RouteSlot => {
                    child.route = Some(id);
                },
                SlotKind::ScopeSlot => {
                    child.scope = Some(id);
                },
            }
            node.wildcard_segments.push(WildcardSegment { slug, child });
            proof {
                let w = n0.wildcard_segments@.len() as int;
                assert(node.wildcard_segments@.len() == w + 1);
                assert(forall|j: int|
                    0 <= j < w ==> node.wildcard_segments@[j] == n0.wildcard_segments@[j]);
                let c1 = node.wildcard_segments@[w].child;
                assert(wf_node(c1));
                assert(wf_node(*node)) by {
                    assert(forall|j: int|
                        0 <= j < node.wildcard_segments@.len() ==> wf_node(
                            (#[trigger] node.wildcard_segments@[j]).child,
                        ));
                    assert(forall|j: int, m: int|
                        0 <= j < m < node.wildcard_segments@.len()
                            ==> node.wildcard_segments@[j].slug@ != node.wildcard_segments@[
                            m
                        ].slug@);
                }
                lemma_lookup_same_statics(n0, *node);
                assert forall|b: nat| ids_below(n0, b) && id < b implies #[trigger] ids_below(
                    *node,
                    b,
                ) by {
                    assert(ids_below(c1, b));
                }
            }
            Ok(())
        },
    }
}

/// Materialize the rest of the clean, conflict-free pattern from `pos`
/// as new nodes below `node`: literal runs become fresh static children,
/// a `:` creates the parameter child and records its name, a `*` creates
/// or merges a wildcard child and stops.
fn insert_remaining(
    node: &mut Node,
    pat: &[u8],
    pos: usize,
    kind: SlotKind,
    id: usize,
    names: &mut ParamNames,
) -> (r: Result<(), Error>)
    requires
        pos <= pat@.len(),
        wf_node(*old(node)),
        clean_at(pat@, pos as int),
        !pat_conflict(kind, *old(node), pat@.skip(pos as int), id),
        pos < pat@.len() && pat@[pos as int] == PARAM_MARK ==> old(node).param_segment is None,
        pos < pat@.len() && pat@[pos as int] != PARAM_MARK && pat@[pos as int] != WILDCARD_MARK
            ==> forall|j: int|
            0 <= j < old(node).static_segments@.len()
                ==> (#[trigger] old(node).static_segments@[j]).segment@.len() > 0 && old(
                node,
            ).static_segments@[j].segment@[0] != pat@[pos as int],
    ensures
        r is Ok,
        wf_node(*final(node)),
        preserves_lookups(*old(node), *final(node)),
        ids_extended(*old(node), *final(node), id),
        inserted(*old(node), *final(node), pat@.skip(pos as int), kind, id),
        final(names).names.deep_view() == old(names).names.deep_view() + scan_names(
            pat@,
            pos as int,
        ),
        final(names).has_wildcard == (old(names).has_wildcard || scan_wildcard(pat@, pos as int)),
        no_marker(pat@.skip(pos as int)) ==> ({
            let sub = pat@.skip(pos as int);
            &&& *final(names) == *old(names)
            &&& slot_lookup(kind, *final(node), sub) == Some(id)
            &&& (slot_lookup(kind, *old(node), sub) is None || slot_lookup(kind, *old(node), sub)
                == Some(id))
            &&& forall|q: Seq<u8>|
                q != sub ==> #[trigger] slot_lookup(kind, *final(node), q) == slot_lookup(
                    kind,
                    *old(node),
                    q,
                )
            &&& forall|q: Seq<u8>| #[trigger]
                other_slot_lookup(kind, *final(node), q) == other_slot_lookup(kind, *old(node), q)
        }),
        no_marker(pat@.skip(pos as int)) && static_only(*old(node)) ==> static_only(
            *final(node),
        ),
    decreases pat@.len() - pos,
{
    let ghost n0 = *node;
    let ghost sub = pat@.skip(pos as int);
    proof {
        assert(clean_from(pat@, pos as int));
    }
    if pos == pat.len() {
        let r = merge_slot(node, kind, id, false);
        proof {
            assert(wf_node(*node)) by {
                assert(wf_node(n0));
            }
            assert(node.static_segments@ == n0.static_segments@);
            assert forall|q: Seq<u8>| lookup_route(n0, q) is Some implies #[trigger] lookup_route(
                *node,
                q,
            ) == lookup_route(n0, q) by {
                if q.len() > 0 {
                    assert(lookup_in_segs(node.static_segments@, q) == lookup_in_segs(
                        n0.static_segments@,
                        q,
                    ));
                }
            }
            assert forall|q: Seq<u8>| lookup_scope(n0, q) is Some implies #[trigger] lookup_scope(
                *node,
                q,
            ) == lookup_scope(n0, q) by {
                if q.len() > 0 {
                    assert(lookup_in_segs(node.static_segments@, q) == lookup_in_segs(
                        n0.static_segments@,
                        q,
                    ));
                }
            }
            assert(sub =~= Seq::<u8>::empty());
            assert(lookup_node(n0, sub) == Some(n0));
            assert(lookup_node(*node, sub) == Some(*node));
            assert forall|b: nat| ids_below(n0, b) && id < b implies #[trigger] ids_below(
                *node,
                b,
            ) by {}
            if r is Err {
                assert(pat_lookup(n0, sub) == Some(n0));
                assert(false);
            }
            assert(inserted(n0, *node, sub, kind, id)) by {
                assert(node.static_segments@ == n0.static_segments@);
                assert(node.wildcard_segments@ == n0.wildcard_segments@);
            }
            assert(!scan_wildcard(pat@, pos as int));
            assert(names.names.deep_view() =~~= old(names).names.deep_view() + scan_names(
                pat@,
                pos as int,
            ));
            if static_only(n0) {
                assert(static_only(*node)) by {
                    assert(forall|j: int|
                        0 <= j < node.static_segments@.len() ==> static_only(
                            (#[trigger] node.static_segments@[j]).child,
                        ));
                }
            }
            if r is Ok {
                assert forall|q: Seq<u8>| q != sub implies #[trigger] slot_lookup(kind, *node, q)
                    == slot_lookup(kind, n0, q) by {
                    if q.len() > 0 {
                        assert(lookup_in_segs(node.static_segments@, q) == lookup_in_segs(
                            n0.static_segments@,
                            q,
                        ));
                    } else {
                        assert(q =~= sub);
                    }
                }
                assert forall|q: Seq<u8>| #[trigger] other_slot_lookup(kind, *node, q)
                    == other_slot_lookup(kind, n0, q) by {
                    if q.len() > 0 {
                        assert(lookup_in_segs(node.static_segments@, q) == lookup_in_segs(
                            n0.static_segments@,
                            q,
                        ));
                    }
                }
            }
        }
        return r;
    }
    let c = pat[pos];
    if c == PARAM_MARK {
        let end = extract_param(pat, pos, names);
        let mut child = Box::new(Node::empty());
        let ghost e0 = *child;
        proof {
            lemma_pat_conflict_empty(kind, e0, pat@.skip(end as int), id);
        }
        let r = insert_remaining(&mut *child, pat, end, kind, id, names);
        let ghost c1 = *child;
        node.param_segment = Some(child);
        proof {
            assert(wf_node(*node)) by {
                assert(wf_node(c1));
                assert(node.static_segments@ == n0.static_segments@);
                assert(node.wildcard_segments@ == n0.wildcard_segments@);
            }
            lemma_lookup_same_statics(n0, *node);
            assert forall|b: nat| ids_below(n0, b) && id < b implies #[trigger] ids_below(
                *node,
                b,
            ) by {
                assert(ids_below(c1, b));
            }
            assert(sub[0] == PARAM_MARK);
            assert(clean_from(pat@, end as int));
            assert(next_slash(pat@, pos as int) == next_slash(pat@, pos + 1));
            assert(scan_wildcard(pat@, pos as int) == scan_wildcard(pat@, end as int));
            assert(scan_names(pat@, pos as int) == seq![pat@.subrange(pos + 1, end as int)]
                + scan_names(pat@, end as int));
            assert(names.names.deep_view() =~~= old(names).names.deep_view() + scan_names(
                pat@,
                pos as int,
            ));
            assert(inserted(n0, *node, sub, kind, id)) by {
                lemma_next_slash_shift(pat@, pos as int, 1);
                assert(sub.skip(next_slash(sub, 1)) =~= pat@.skip(end as int));
                lemma_inserted_empty(e0, c1, pat@.skip(end as int), kind, id);
                assert(fresh_tail(c1, sub.skip(next_slash(sub, 1)), kind, id));
                assert(node.static_segments@ == n0.static_segments@);
                assert(node.wildcard_segments@ == n0.wildcard_segments@);
            }
        }
        return r;
    }
    if c == WILDCARD_MARK {
        proof {
            assert(sub[0] == WILDCARD_MARK);
            assert(sub.skip(1) =~= pat@.skip(pos + 1));
            if wildcard_conflict(kind, *node, pat@.skip(pos + 1), id) {
                let f = choose|f: int|
                    0 <= f < node.wildcard_segments@.len()
                        && (#[trigger] node.wildcard_segments@[f]).slug@ == pat@.skip(pos + 1)
                        && slot_of(kind, node.wildcard_segments@[f].child) is Some && slot_of(
                        kind,
                        node.wildcard_segments@[f].child,
                    ) != Some(id);
                lemma_pat_lookup_wild(*node, sub, f);
                assert(false);
            }
        }
        let r = insert_wildcard(node, pat, pos, kind, id, names);
        proof {
            assert(pat@[pos as int] == WILDCARD_MARK);
            assert(names.names.deep_view() =~~= old(names).names.deep_view() + scan_names(
                pat@,
                pos as int,
            ));
            assert(inserted(n0, *node, sub, kind, id)) by {
                assert(sub.skip(1) =~= pat@.skip(pos + 1));
                assert(wildcard_registered(kind, n0, *node, sub.skip(1), id));
            }
        }
        return r;
    }
    // A literal run up to the next marker; the pattern is clean, so a
    // marker ending the run stands right after a `/`.
    let end = scan_to_marker(pat, pos);
    proof {
        lemma_next_marker_bounds(pat@, pos as int);
    }
    let seg_slice = vstd::slice::slice_subrange(pat, pos, end);
    let seg_vec = vstd::slice::slice_to_vec(seg_slice);
    node.static_segments.push(StaticSegment { segment: seg_vec, child: Node::empty() });
    let ghost n1 = *node;
    let ghost w = n0.static_segments@.len() as int;
    let ghost nseg = pat@.subrange(pos as int, end as int);
    proof {
        assert(n1.static_segments@[w].segment@ == nseg);
        assert(nseg.len() > 0);
        assert(no_marker(nseg)) by {
            assert(forall|m: int|
                pos <= m < end ==> pat@[m] != PARAM_MARK && pat@[m] != WILDCARD_MARK);
            assert(forall|m: int| 0 <= m < nseg.len() ==> nseg[m] == pat@[pos + m]);
        }
        assert(nseg[0] == pat@[pos as int]);
        lemma_lookup_push(n0, n1);
        assert(wf_node(n1)) by {
            assert(forall|j: int|
                0 <= j < n1.static_segments@.len() ==> wf_node(
                    (#[trigger] n1.static_segments@[j]).child,
                ));
        }
    }
    let last = node.static_segments.len() - 1;
    proof {
        assert(is_empty_node(n1.static_segments@[w].child));
        lemma_pat_conflict_empty(kind, n1.static_segments@[w].child, pat@.skip(end as int), id);
    }
    let r = insert_remaining(&mut node.static_segments[last].child, pat, end, kind, id, names);
    let ghost n2 = *node;
    let ghost c1 = n1.static_segments@[w].child;
    let ghost c2 = n2.static_segments@[w].child;
    let ghost rest = pat@.skip(end as int);
    proof {
        assert(n2.static_segments@ == n1.static_segments@.update(w, n2.static_segments@[w]));
        assert(n2.static_segments@[w].segment@ == nseg);
        assert(forall|j: int|
            0 <= j < n1.static_segments@.len() && j != w ==> n2.static_segments@[j]
                == n1.static_segments@[j]);
        lemma_lookup_update_child(n1, n2, w);
        assert(wf_node(n2)) by {
            assert(forall|j: int|
                0 <= j < n2.static_segments@.len() ==> wf_node(
                    (#[trigger] n2.static_segments@[j]).child,
                ));
        }
        // Old descents are untouched: nothing matched the new child before,
        // and the subtrees of the old children are unchanged.
        assert forall|q: Seq<u8>| lookup_route(n0, q) is Some implies #[trigger] lookup_route(
            n2,
            q,
        ) == lookup_route(n0, q) by {
            lemma_step_through_new_child(n0, n1, n2, w, q);
        }
        assert forall|q: Seq<u8>| lookup_scope(n0, q) is Some implies #[trigger] lookup_scope(
            n2,
            q,
        ) == lookup_scope(n0, q) by {
            lemma_step_through_new_child(n0, n1, n2, w, q);
        }
        assert forall|b: nat| ids_below(n0, b) && id < b implies #[trigger] ids_below(n2, b) by {
            assert(ids_below(c2, b)) by {
                assert(ids_below(c1, b)) by {
                    assert(is_empty_node(c1));
                }
            }
            assert(forall|j: int|
                0 <= j < n2.static_segments@.len() && j != w ==> ids_below(
                    (#[trigger] n2.static_segments@[j]).child,
                    b,
                ));
        }
        if no_marker(sub) {
            // The whole tail is this one literal: the marker scan ran to the
            // end, so the fresh child is the terminal node.
            assert(end == pat@.len()) by {
                if end < pat@.len() {
                    assert(sub[end - pos] == pat@[end as int]);
                }
            }
            assert(nseg =~= sub);
            assert(rest =~= Seq::<u8>::empty());
            assert(no_marker(rest));
            if static_only(n0) {
                assert(static_only(c1)) by {
                    assert(is_empty_node(c1));
                }
                assert(static_only(c2));
                assert(static_only(n2)) by {
                    assert(forall|j: int|
                        0 <= j < n2.static_segments@.len() ==> static_only(
                            (#[trigger] n2.static_segments@[j]).child,
                        ));
                }
            }
            assert(is_match_at(nseg, sub, 0)) by {
                assert(sub.subrange(0, nseg.len() as int) =~= nseg);
            }
            assert(sub.skip(nseg.len() as int) =~= rest);
            assert(lookup_in_segs(n2.static_segments@, sub) == lookup_node(c2, rest));
            assert(lookup_in_segs(n0.static_segments@, sub) is None) by {
                assert forall|j: int| 0 <= j < n0.static_segments@.len() implies !is_match_at(
                    (#[trigger] n0.static_segments@[j]).segment@,
                    sub,
                    0,
                ) by {
                    if is_match_at(n0.static_segments@[j].segment@, sub, 0) {
                        assert(n0.static_segments@[j].segment@[0] == sub[0]);
                    }
                }
                lemma_lookup_in_segs_none(n0.static_segments@, sub);
            }
            assert(lookup_node(c1, rest) == Some(c1));
            assert(lookup_node(c2, rest) == Some(c2));
            if r is Ok {
                assert forall|q: Seq<u8>| q != sub implies #[trigger] slot_lookup(kind, n2, q)
                    == slot_lookup(kind, n0, q) by {
                    if q.len() > 0 && is_match_at(nseg, q, 0) {
                        let qrest = q.skip(nseg.len() as int);
                        assert(qrest != rest) by {
                            if qrest == rest {
                                assert(q.len() == sub.len());
                                assert(q.subrange(0, nseg.len() as int) == nseg);
                                assert forall|m: int| 0 <= m < sub.len() implies q[m] == sub[
                                    m
                                ] by {
                                    assert(q.subrange(0, nseg.len() as int)[m] == q[m]);
                                    assert(nseg[m] == sub[m]);
                                }
                                assert(q =~= sub);
                            }
                        }
                        assert(lookup_in_segs(n2.static_segments@, q) == lookup_node(c2, qrest));
                        assert(lookup_in_segs(n0.static_segments@, q) is None);
                        assert(slot_lookup(kind, c2, qrest) == slot_lookup(kind, c1, qrest));
                        assert(qrest.len() > 0);
                        lemma_lookup_in_segs_none(c1.static_segments@, qrest);
                    } else if q.len() > 0 {
                        assert(lookup_in_segs(n1.static_segments@, q) == lookup_in_segs(
                            n0.static_segments@,
                            q,
                        ));
                        assert(lookup_in_segs(n2.static_segments@, q) == lookup_in_segs(
                            n1.static_segments@,
                            q,
                        ));
                    } else {
                        assert(q.len() == 0 && sub.len() > 0);
                    }
                }
                assert forall|q: Seq<u8>| #[trigger] other_slot_lookup(kind, n2, q)
                    == other_slot_lookup(kind, n0, q) by {
                    if q.len() > 0 && is_match_at(nseg, q, 0) {
                        let qrest = q.skip(nseg.len() as int);
                        assert(lookup_in_segs(n2.static_segments@, q) == lookup_node(c2, qrest));
                        assert(lookup_in_segs(n0.static_segments@, q) is None);
                        assert(other_slot_lookup(kind, c2, qrest) == other_slot_lookup(
                            kind,
                            c1,
                            qrest,
                        ));
                        if qrest.len() > 0 {
                            lemma_lookup_in_segs_none(c1.static_segments@, qrest);
                        } else {
                            assert(lookup_node(c1, qrest) == Some(c1));
                        }
                    } else if q.len() > 0 {
                        assert(lookup_in_segs(n1.static_segments@, q) == lookup_in_segs(
                            n0.static_segments@,
                            q,
                        ));
                        assert(lookup_in_segs(n2.static_segments@, q) == lookup_in_segs(
                            n1.static_segments@,
                            q,
                        ));
                    }
                }
            }
        }
        assert(forall|m: int|
            pos <= m < end ==> (#[trigger] pat@[m]) != PARAM_MARK && pat@[m] != WILDCARD_MARK);
        lemma_scan_skip_literals(pat@, pos as int, end as int);
        assert(clean_from(pat@, end as int));
        assert(inserted(n0, n2, sub, kind, id)) by {
            assert(sub[0] == pat@[pos as int]);
            assert(!(exists|j: int|
                0 <= j < n0.static_segments@.len()
                    && (#[trigger] n0.static_segments@[j]).segment@.len() > 0
                    && n0.static_segments@[j].segment@[0] == sub[0])) by {
                assert(forall|j: int|
                    0 <= j < n0.static_segments@.len()
                        ==> (#[trigger] n0.static_segments@[j]).segment@[0] != pat@[pos as int]);
            }
            lemma_next_marker_shift(pat@, pos as int, 0);
            assert(next_marker(sub, 0) == end - pos);
            assert(sub.subrange(0, end - pos) =~= nseg);
            assert(sub.skip(end - pos) =~= rest);
            assert(is_empty_node(c1));
            lemma_inserted_empty(c1, c2, rest, kind, id);
            assert(fresh_tail(
                n2.static_segments@[w].child,
                sub.skip(next_marker(sub, 0)),
                kind,
                id,
            ));
            assert(forall|k: int| 0 <= k < w ==> n2.static_segments@[k] == n0.static_segments@[k]);
            assert(n2.param_segment == n0.param_segment);
            assert(n2.wildcard_segments@ == n0.wildcard_segments@);
            assert(n2.route == n0.route);
            assert(n2.scope == n0.scope);
        }
    }
    r
}

/// A pattern registered before the push of a fresh static child is found
/// unchanged after it: it cannot run through the fresh child, whose first
/// byte no old child shared.
proof fn lemma_step_through_new_child(n0: Node, n1: Node, n2: Node, w: int, q: Seq<u8>)
    requires
        static_segs_shallow_wf(n0.static_segments@),
        static_segs_shallow_wf(n1.static_segments@),
        n1.route == n0.route,
        n1.scope == n0.scope,
        n1.param_segment == n0.param_segment,
        n2.route == n1.route,
        n2.scope == n1.scope,
        w == n0.static_segments@.len(),
        n1.static_segments@.len() == w + 1,
        n2.static_segments@.len() == w + 1,
        forall|j: int|
            0 <= j < w ==> n1.static_segments@[j] == n0.static_segments@[j],
        forall|j: int|
            0 <= j < w ==> n2.static_segments@[j] == n1.static_segments@[j],
        n2.static_segments@[w].segment@ == n1.static_segments@[w].segment@,
        n1.static_segments@[w].segment@.len() > 0,
        forall|j: int|
            0 <= j < w ==> (#[trigger] n0.static_segments@[j]).segment@[0]
                != n1.static_segments@[w].segment@[0],
        lookup_route(n1.static_segments@[w].child, q) is Some ==> false,
        lookup_scope(n1.static_segments@[w].child, q) is Some ==> false,
    ensures
        lookup_route(n0, q) is Some ==> lookup_route(n2, q) == lookup_route(n0, q),
        lookup_scope(n0, q) is Some ==> lookup_scope(n2, q) == lookup_scope(n0, q),
{
    let s0 = n0.static_segments@;
    let s1 = n1.static_segments@;
    let s2 = n2.static_segments@;
    let nseg = s1[w].segment@;
    if q.len() > 0 {
        if exists|j: int| 0 <= j < s0.len() && is_match_at((#[trigger] s0[j]).segment@, q, 0) {
            let j = choose|j: int|
                0 <= j < s0.len() && is_match_at((#[trigger] s0[j]).segment@, q, 0);
            lemma_lookup_in_segs_step(s0, q, j);
            lemma_lookup_in_segs_step(s2, q, j);
        } else {
            lemma_lookup_in_segs_none(s0, q);
        }
    }
}

/// One step of the insertion walk at `node`, with the pattern consumed up
/// to `pos`: descend through an existing parameter child at `:`, hand `*`
/// to the wildcard path, consume a shared literal prefix (splitting a
/// partially shared segment first), and otherwise materialize what
/// remains. When the pattern is consumed the identifier is merged into
/// this node's terminal slot.
#[verifier::rlimit(100)]
fn insert_at(
    node: &mut Node,
    pat: &[u8],
    pos: usize,
    kind: SlotKind,
    id: usize,
    names: &mut ParamNames,
) -> (r: Result<(), Error>)
    requires
        pos <= pat@.len(),
        wf_node(*old(node)),
        clean_at(pat@, pos as int),
        !pat_conflict(kind, *old(node), pat@.skip(pos as int), id),
    ensures
        r is Ok,
        wf_node(*final(node)),
        preserves_lookups(*old(node), *final(node)),
        ids_extended(*old(node), *final(node), id),
        inserted(*old(node), *final(node), pat@.skip(pos as int), kind, id),
        final(names).names.deep_view() == old(names).names.deep_view() + scan_names(
            pat@,
            pos as int,
        ),
        final(names).has_wildcard == (old(names).has_wildcard || scan_wildcard(pat@, pos as int)),
        no_marker(pat@.skip(pos as int)) ==> ({
            let sub = pat@.skip(pos as int);
            &&& *final(names) == *old(names)
            &&& slot_lookup(kind, *final(node), sub) == Some(id)
            &&& (slot_lookup(kind, *old(node), sub) is None || slot_lookup(kind, *old(node), sub)
                == Some(id))
            &&& forall|q: Seq<u8>|
                q != sub ==> #[trigger] slot_lookup(kind, *final(node), q) == slot_lookup(
                    kind,
                    *old(node),
                    q,
                )
            &&& forall|q: Seq<u8>| #[trigger]
                other_slot_lookup(kind, *final(node), q) == other_slot_lookup(kind, *old(node), q)
        }),
        no_marker(pat@.skip(pos as int)) && static_only(*old(node)) ==> static_only(
            *final(node),
        ),
    decreases pat@.len() - pos,
{
    let ghost n0 = *node;
    let ghost sub = pat@.skip(pos as int);
    proof {
        assert(clean_from(pat@, pos as int));
    }
    if pos < pat.len() {
        let c = pat[pos];
        if c == PARAM_MARK {
            if node.param_segment.is_some() {
                let end = extract_param(pat, pos, names);
                let ghost c0 = *n0.param_segment.unwrap();
                let mut child = node.param_segment.take().unwrap();
                proof {
                    assert(sub[0] == PARAM_MARK);
                    lemma_next_slash_shift(pat@, pos as int, 1);
                    assert(next_slash(pat@, pos as int) == next_slash(pat@, pos + 1));
                    assert(sub.skip(next_slash(sub, 1)) =~= pat@.skip(end as int));
                    assert(pat_lookup(n0, sub) == pat_lookup(c0, sub.skip(next_slash(sub, 1))));
                    assert(!pat_conflict(kind, c0, pat@.skip(end as int), id));
                }
                let r = insert_at(&mut *child, pat, end, kind, id, names);
                let ghost c1 = *child;
                node.param_segment = Some(child);
                proof {
                    assert(wf_node(*node)) by {
                        assert(wf_node(c1));
                        assert(node.static_segments@ == n0.static_segments@);
                        assert(node.wildcard_segments@ == n0.wildcard_segments@);
                    }
                    lemma_lookup_same_statics(n0, *node);
                    assert forall|b: nat| ids_below(n0, b) && id < b implies #[trigger] ids_below(
                        *node,
                        b,
                    ) by {
                        assert(ids_below(c0, b));
                        assert(ids_below(c1, b));
                    }
                    assert(clean_from(pat@, end as int));
                    assert(scan_wildcard(pat@, pos as int) == scan_wildcard(pat@, end as int));
                    assert(scan_names(pat@, pos as int) == seq![
                        pat@.subrange(pos + 1, end as int),
                    ] + scan_names(pat@, end as int));
                    assert(names.names.deep_view() =~~= old(names).names.deep_view()
                        + scan_names(pat@, pos as int));
                    assert(inserted(n0, *node, sub, kind, id)) by {
                        assert(inserted(c0, c1, sub.skip(next_slash(sub, 1)), kind, id));
                        assert(node.static_segments@ == n0.static_segments@);
                        assert(node.wildcard_segments@ == n0.wildcard_segments@);
                    }
                }
                return r;
            }
        } else if c == WILDCARD_MARK {
            proof {
                assert(sub[0] == WILDCARD_MARK);
                assert(sub.skip(1) =~= pat@.skip(pos + 1));
                if wildcard_conflict(kind, *node, pat@.skip(pos + 1), id) {
                    let f = choose|f: int|
                        0 <= f < node.wildcard_segments@.len()
                            && (#[trigger] node.wildcard_segments@[f]).slug@ == pat@.skip(pos + 1)
                            && slot_of(kind, node.wildcard_segments@[f].child) is Some && slot_of(
                            kind,
                            node.wildcard_segments@[f].child,
                        ) != Some(id);
                    lemma_pat_lookup_wild(*node, sub, f);
                    assert(false);
                }
            }
            let r = insert_wildcard(node, pat, pos, kind, id, names);
            proof {
                assert(pat@[pos as int] == WILDCARD_MARK);
                assert(names.names.deep_view() =~~= old(names).names.deep_view() + scan_names(
                    pat@,
                    pos as int,
                ));
                assert(inserted(n0, *node, sub, kind, id)) by {
                    assert(sub.skip(1) =~= pat@.skip(pos + 1));
                    assert(wildcard_registered(kind, n0, *node, sub.skip(1), id));
                }
            }
            return r;
        } else {
            match find_lcp_child(node, pat, pos) {
                Some(pair) => {
                    let i = pair.0;
                    let l = pair.1;
                    let seg_len = node.static_segments[i].segment.len();
                    if l < seg_len {
                        split_static(node, i, l);
                    }
                    let ghost n1 = *node;
                    proof {
                        if (l as int) < n0.static_segments@[i as int].segment@.len() {
                            assert(is_split_of(n1, n0, i as int, l as int));
                            assert(n1.static_segments@[i as int].segment@ == n0.static_segments@[
                                i as int
                            ].segment@.subrange(0, l as int));
                        } else {
                            assert(n1 == n0);
                            assert(n1.static_segments@[i as int].segment@ =~= n0.static_segments@[
                                i as int
                            ].segment@.subrange(0, l as int));
                            assert forall|q: Seq<u8>| #[trigger] lookup_route(n1, q)
                                == lookup_route(n0, q) by {}
                            assert forall|q: Seq<u8>| #[trigger] lookup_scope(n1, q)
                                == lookup_scope(n0, q) by {}
                            assert forall|b: nat| #[trigger] ids_below(n0, b) implies ids_below(
                                n1,
                                b,
                            ) by {}
                        }
                        assert(n1.static_segments@[i as int].segment@ == pat@.subrange(
                            pos as int,
                            pos + l,
                        ));
                        assert(wf_node(n1));
                        assert(wf_node(n1.static_segments@[i as int].child));
                        let seg0 = n0.static_segments@[i as int].segment@;
                        let rest0 = pat@.skip(pos + l);
                        assert(seg0.subrange(0, l as int) =~= sub.subrange(0, l as int)) by {
                            assert(sub.subrange(0, l as int) =~= pat@.subrange(pos as int, pos + l));
                        }
                        assert(l < seg0.len() && (l as int) < sub.len() ==> seg0[l as int] != sub[
                            l as int
                        ]) by {
                            if l < seg0.len() && (l as int) < sub.len() {
                                assert(sub[l as int] == pat@[pos + l]);
                            }
                        }
                        lemma_lcp_char(seg0, sub, l as int);
                        assert(lcp(seg0, sub) == l as int);
                        assert(sub.skip(l as int) =~= rest0);
                        if (l as int) < seg0.len() {
                            let c1x = n1.static_segments@[i as int].child;
                            let tail = c1x.static_segments@[0].segment@;
                            assert(tail == seg0.skip(l as int));
                            if rest0.len() == 0 {
                                assert(pat_lookup(c1x, rest0) == Some(c1x));
                            } else {
                                assert(rest0[0] == pat@[pos + l]);
                                assert(tail[0] == seg0[l as int]);
                                assert(tail[0] != rest0[0]);
                                if rest0[0] == PARAM_MARK {
                                    assert(pat_lookup(c1x, rest0) is None);
                                } else if rest0[0] == WILDCARD_MARK {
                                    lemma_pat_lookup_wild_none(c1x, rest0);
                                } else {
                                    assert forall|j: int|
                                        0 <= j < c1x.static_segments@.len() implies !is_match_at(
                                        (#[trigger] c1x.static_segments@[j]).segment@,
                                        rest0,
                                        0,
                                    ) by {
                                        if is_match_at(c1x.static_segments@[j].segment@, rest0, 0) {
                                            assert(j == 0);
                                            assert(rest0.subrange(0, tail.len() as int)[0]
                                                == rest0[0]);
                                        }
                                    }
                                    lemma_pat_lookup_static_none(c1x, rest0);
                                }
                            }
                            assert(!pat_conflict(kind, c1x, rest0, id));
                        } else {
                            assert(is_match_at(seg0, sub, 0)) by {
                                assert(seg0.subrange(0, l as int) =~= seg0);
                            }
                            lemma_pat_lookup_static(n0, sub, i as int);
                            assert(!pat_conflict(
                                kind,
                                n1.static_segments@[i as int].child,
                                rest0,
                                id,
                            ));
                        }
                    }
                    let ghost c1 = n1.static_segments@[i as int].child;
                    let r = insert_at(&mut node.static_segments[i].child, pat, pos + l, kind, id, names);
                    let ghost n2 = *node;
                    let ghost c2 = n2.static_segments@[i as int].child;
                    let ghost seg = n1.static_segments@[i as int].segment@;
                    let ghost rest = pat@.skip(pos + l);
                    proof {
                        assert(n2.static_segments@.len() == n1.static_segments@.len());
                        assert(forall|j: int|
                            0 <= j < n1.static_segments@.len() && j != i as int
                                ==> n2.static_segments@[j] == n1.static_segments@[j]);
                        assert(n2.static_segments@[i as int].segment@ == seg);
                        assert(n2.route == n1.route && n2.scope == n1.scope);
                        assert(n2.param_segment == n1.param_segment);
                        assert(n2.wildcard_segments@ == n1.wildcard_segments@);
                        lemma_lookup_update_child(n1, n2, i as int);
                        assert(wf_node(n2)) by {
                            assert(forall|j: int|
                                0 <= j < n2.static_segments@.len() ==> wf_node(
                                    (#[trigger] n2.static_segments@[j]).child,
                                ));
                        }
                        assert forall|q: Seq<u8>| lookup_route(n0, q) is Some implies
                            #[trigger] lookup_route(n2, q) == lookup_route(n0, q) by {
                            assert(lookup_route(n1, q) == lookup_route(n0, q));
                            if q.len() > 0 && is_match_at(seg, q, 0) {
                                let qrest = q.skip(seg.len() as int);
                                assert(lookup_node(n1, q) == lookup_node(c1, qrest));
                                assert(lookup_node(n2, q) == lookup_node(c2, qrest));
                                assert(lookup_route(c1, qrest) is Some);
                                assert(lookup_route(c2, qrest) == lookup_route(c1, qrest));
                            } else if q.len() > 0 {
                                assert(lookup_in_segs(n2.static_segments@, q) == lookup_in_segs(
                                    n1.static_segments@,
                                    q,
                                ));
                            }
                        }
                        assert forall|q: Seq<u8>| lookup_scope(n0, q) is Some implies
                            #[trigger] lookup_scope(n2, q) == lookup_scope(n0, q) by {
                            assert(lookup_scope(n1, q) == lookup_scope(n0, q));
                            if q.len() > 0 && is_match_at(seg, q, 0) {
                                let qrest = q.skip(seg.len() as int);
                                assert(lookup_node(n1, q) == lookup_node(c1, qrest));
                                assert(lookup_node(n2, q) == lookup_node(c2, qrest));
                                assert(lookup_scope(c1, qrest) is Some);
                                assert(lookup_scope(c2, qrest) == lookup_scope(c1, qrest));
                            } else if q.len() > 0 {
                                assert(lookup_in_segs(n2.static_segments@, q) == lookup_in_segs(
                                    n1.static_segments@,
                                    q,
                                ));
                            }
                        }
                        assert forall|b: nat| ids_below(n0, b) && id < b implies #[trigger] ids_below(
                            n2,
                            b,
                        ) by {
                            assert(ids_below(n1, b));
                            assert(ids_below(c1, b));
                            assert(ids_below(c2, b));
                            assert(forall|j: int|
                                0 <= j < n2.static_segments@.len() && j != i as int ==> ids_below(
                                    (#[trigger] n2.static_segments@[j]).child,
                                    b,
                                ));
                            assert(forall|j: int|
                                0 <= j < n2.wildcard_segments@.len() ==> ids_below(
                                    (#[trigger] n2.wildcard_segments@[j]).child,
                                    b,
                                ));
                        }
                        if no_marker(sub) {
                            assert(no_marker(rest)) by {
                                assert(forall|m: int|
                                    0 <= m < rest.len() ==> rest[m] == sub[m + l]);
                            }
                            assert(sub.len() > 0);
                            assert(is_match_at(seg, sub, 0)) by {
                                assert(seg.subrange(0, l as int) =~= seg);
                                assert(sub.subrange(0, l as int) =~= pat@.subrange(
                                    pos as int,
                                    pos + l,
                                ));
                            }
                            assert(sub.skip(l as int) =~= rest);
                            assert(lookup_node(n1, sub) == lookup_node(c1, rest));
                            assert(lookup_node(n2, sub) == lookup_node(c2, rest));
                            assert(lookup_route(n1, sub) == lookup_route(n0, sub));
                            assert(lookup_scope(n1, sub) == lookup_scope(n0, sub));
                        }
                        if no_marker(sub) {
                            assert(no_marker(rest)) by {
                                assert(forall|m: int|
                                    0 <= m < rest.len() ==> rest[m] == sub[m + l]);
                            }
                            assert forall|q: Seq<u8>| q != sub implies #[trigger] slot_lookup(
                                kind,
                                n2,
                                q,
                            ) == slot_lookup(kind, n0, q) by {
                                assert(lookup_route(n1, q) == lookup_route(n0, q));
                                assert(lookup_scope(n1, q) == lookup_scope(n0, q));
                                if q.len() > 0 && is_match_at(seg, q, 0) {
                                    let qrest = q.skip(seg.len() as int);
                                    assert(qrest != rest) by {
                                        if qrest == rest {
                                            assert(q.len() == sub.len());
                                            assert forall|m: int| 0 <= m < sub.len() implies q[m]
                                                == sub[m] by {
                                                if m < seg.len() {
                                                    assert(q.subrange(0, seg.len() as int)[m]
                                                        == q[m]);
                                                    assert(sub.subrange(0, seg.len() as int)[m]
                                                        == sub[m]);
                                                } else {
                                                    assert(qrest[m - seg.len()] == q[m]);
                                                    assert(rest[m - seg.len()] == sub[m]);
                                                }
                                            }
                                            assert(q =~= sub);
                                        }
                                    }
                                    assert(lookup_node(n1, q) == lookup_node(c1, qrest));
                                    assert(lookup_node(n2, q) == lookup_node(c2, qrest));
                                    assert(slot_lookup(kind, c2, qrest) == slot_lookup(
                                        kind,
                                        c1,
                                        qrest,
                                    ));
                                } else if q.len() > 0 {
                                    assert(lookup_in_segs(n2.static_segments@, q)
                                        == lookup_in_segs(n1.static_segments@, q));
                                }
                            }
                            assert forall|q: Seq<u8>| #[trigger] other_slot_lookup(kind, n2, q)
                                == other_slot_lookup(kind, n0, q) by {
                                assert(lookup_route(n1, q) == lookup_route(n0, q));
                                assert(lookup_scope(n1, q) == lookup_scope(n0, q));
                                if q.len() > 0 && is_match_at(seg, q, 0) {
                                    let qrest = q.skip(seg.len() as int);
                                    assert(lookup_node(n1, q) == lookup_node(c1, qrest));
                                    assert(lookup_node(n2, q) == lookup_node(c2, qrest));
                                    assert(other_slot_lookup(kind, c2, qrest)
                                        == other_slot_lookup(kind, c1, qrest));
                                } else if q.len() > 0 {
                                    assert(lookup_in_segs(n2.static_segments@, q)
                                        == lookup_in_segs(n1.static_segments@, q));
                                }
                            }
                        }
                        assert(no_marker(seg));
                        assert forall|m: int|
                            pos <= m < pos + l implies (#[trigger] pat@[m]) != PARAM_MARK
                            && pat@[m] != WILDCARD_MARK by {
                            assert(seg[m - pos] == pat@[m]) by {
                                assert(pat@.subrange(pos as int, pos + l)[m - pos] == pat@[m]);
                            }
                        }
                        lemma_scan_skip_literals(pat@, pos as int, pos + l);
                        assert(clean_from(pat@, pos + l));
                        assert(inserted(n0, n2, sub, kind, id)) by {
                            let seg0 = n0.static_segments@[i as int].segment@;
                            assert(sub[0] == pat@[pos as int]);
                            assert(seg0[0] == sub[0]) by {
                                assert(seg0.subrange(0, l as int)[0] == seg0[0]);
                                assert(pat@.subrange(pos as int, pos + l)[0] == pat@[pos as int]);
                            }
                            assert(exists|j: int|
                                0 <= j < n0.static_segments@.len()
                                    && (#[trigger] n0.static_segments@[j]).segment@.len() > 0
                                    && n0.static_segments@[j].segment@[0] == sub[0]);
                            let j = choose|j: int|
                                0 <= j < n0.static_segments@.len()
                                    && (#[trigger] n0.static_segments@[j]).segment@.len() > 0
                                    && n0.static_segments@[j].segment@[0] == sub[0];
                            assert(j == i as int) by {
                                if j != i as int {
                                    if j < i as int {
                                        assert(n0.static_segments@[j].segment@[0] != seg0[0]);
                                    } else {
                                        assert(seg0[0] != n0.static_segments@[j].segment@[0]);
                                    }
                                }
                            }
                            assert(lcp(seg0, sub) == l as int);
                            assert(sub.skip(l as int) =~= rest);
                            assert(inserted(c1, c2, sub.skip(l as int), kind, id));
                            if (l as int) == seg0.len() {
                                assert(n2.static_segments@[i as int].segment@ == seg0) by {
                                    assert(seg0.subrange(0, l as int) =~= seg0);
                                }
                            } else {
                                assert(n2.static_segments@[i as int].segment@ == seg0.subrange(
                                    0,
                                    l as int,
                                ));
                                assert(c1.static_segments@.len() == 1);
                                assert(c1.static_segments@[0].segment@ == seg0.skip(l as int));
                                assert(c1.static_segments@[0].child == n0.static_segments@[
                                    i as int
                                ].child);
                                assert(c1.param_segment is None);
                                assert(c1.wildcard_segments@.len() == 0);
                                assert(c1.route is None);
                                assert(c1.scope is None);
                            }
                            assert(forall|k: int|
                                0 <= k < n0.static_segments@.len() && k != i as int
                                    ==> n2.static_segments@[k] == n0.static_segments@[k]);
                            assert(n2.param_segment == n0.param_segment);
                            assert(n2.wildcard_segments@ == n0.wildcard_segments@);
                            assert(n2.route == n0.route);
                            assert(n2.scope == n0.scope);
                        }
                    }
                    return r;
                },
                None => {
                    proof {
                        assert forall|j: int|
                            0 <= j < node.static_segments@.len() implies (#[trigger] node.static_segments@[j]).segment@.len()
                            > 0 && node.static_segments@[j].segment@[0] != pat@[pos as int] by {}
                    }
                },
            }
        }
    }
    insert_remaining(node, pat, pos, kind, id, names)
}

impl Tree {
    /// Register `pattern` as a route carrying `id`. The pattern's syntax
    /// is validated first and a conflict is probed for read-only, so a
    /// failed registration returns the tree exactly as it was. On success
    /// the tree is exactly [`inserted`]'s description of the registration,
    /// and the returned [`ParamNames`] lists the declared parameter names
    /// (or is `None` for a pattern with neither parameters nor wildcard).
    /// Registration fails if and only if a marker is not immediately
    /// preceded by `/` (`InvalidPatternSyntax`), or the node the pattern
    /// lands on already holds a different identifier in its route slot
    /// (`DuplicateWildcard` for a wildcard pattern, else `DuplicateRoute`).
    pub fn insert_route(&mut self, pattern: &[u8], id: usize) -> (r: Result<
        Option<ParamNames>,
        Error,
    >)
        requires
            wf_node(old(self).root),
        ensures
            wf_node(final(self).root),
            preserves_lookups(old(self).root, final(self).root),
            ids_extended(old(self).root, final(self).root, id),
            r is Err ==> *final(self) == *old(self),
            (r is Err) <==> (!clean_at(pattern@, 0) || pat_conflict(
                SlotKind::RouteSlot,
                old(self).root,
                pattern@,
                id,
            )),
            match r {
                Ok(names) => {
                    &&& inserted(old(self).root, final(self).root, pattern@, SlotKind::RouteSlot, id)
                    &&& match names {
                        Some(ns) => ns.names.deep_view() == scan_names(pattern@, 0)
                            && ns.has_wildcard == scan_wildcard(pattern@, 0) && (ns.names@.len() > 0
                            || ns.has_wildcard),
                        None => scan_names(pattern@, 0).len() == 0 && !scan_wildcard(pattern@, 0),
                    }
                },
                Err(e) => e.kind == (if !clean_at(pattern@, 0) {
                    ErrorKind::InvalidPatternSyntax
                } else if scan_wildcard(pattern@, 0) {
                    ErrorKind::DuplicateWildcard
                } else {
                    ErrorKind::DuplicateRoute
                }),
            },
            r is Ok && no_marker(pattern@) ==> (forall|q: Seq<u8>|
                q != pattern@ ==> #[trigger] lookup_route(final(self).root, q) == lookup_route(
                    old(self).root,
                    q,
                )) && (forall|q: Seq<u8>| #[trigger]
                lookup_scope(final(self).root, q) == lookup_scope(old(self).root, q)),
            no_marker(pattern@) && static_only(old(self).root) ==> static_only(final(self).root),
            no_marker(pattern@) ==> match r {
                Ok(names) => names is None && lookup_route(final(self).root, pattern@) == Some(id)
                    && (lookup_route(old(self).root, pattern@) is None || lookup_route(
                    old(self).root,
                    pattern@,
                ) == Some(id)),
                Err(e) => e.kind == ErrorKind::DuplicateRoute && lookup_route(
                    old(self).root,
                    pattern@,
                ) is Some && lookup_route(old(self).root, pattern@) != Some(id),
            },
    {
        proof {
            assert(pattern@.skip(0) =~= pattern@);
            if no_marker(pattern@) {
                assert(clean_at(pattern@, 0));
                crate::tree::lemma_pat_lookup_no_marker(old(self).root, pattern@);
                lemma_scan_skip_literals(pattern@, 0, pattern@.len() as int);
            }
        }
        if !marks_after_slash(pattern) {
            return Err(Error { kind: ErrorKind::InvalidPatternSyntax });
        }
        if let Some(k) = probe(&self.root, pattern, 0, SlotKind::RouteSlot, id) {
            return Err(Error { kind: k });
        }
        let mut names = ParamNames { names: Vec::new(), has_wildcard: false };
        let r = insert_at(&mut self.root, pattern, 0, SlotKind::RouteSlot, id, &mut names);
        proof {
            assert(names.names.deep_view() =~= scan_names(pattern@, 0));
            if no_marker(pattern@) {
                assert forall|q: Seq<u8>| q != pattern@ implies #[trigger] lookup_route(
                    self.root,
                    q,
                ) == lookup_route(old(self).root, q) by {
                    assert(slot_lookup(SlotKind::RouteSlot, self.root, q) == slot_lookup(
                        SlotKind::RouteSlot,
                        old(self).root,
                        q,
                    ));
                }
                assert forall|q: Seq<u8>| #[trigger] lookup_scope(self.root, q) == lookup_scope(
                    old(self).root,
                    q,
                ) by {
                    assert(other_slot_lookup(SlotKind::RouteSlot, self.root, q)
                        == other_slot_lookup(SlotKind::RouteSlot, old(self).root, q));
                }
            }
        }
        match r {
            Ok(()) => {
                if names.names.len() == 0 && !names.has_wildcard {
                    Ok(None)
                } else {
                    Ok(Some(names))
                }
            },
            Err(e) => Err(e),
        }
    }

    /// Register `pattern` as a scope boundary carrying `id`. The scope is
    /// reported for every recognized path that descends through the
    /// pattern's node. The contract mirrors [`Tree::insert_route`], over
    /// the scope slot.
    pub fn insert_scope(&mut self, pattern: &[u8], id: usize) -> (r: Result<
        Option<ParamNames>,
        Error,
    >)
        requires
            wf_node(old(self).root),
        ensures
            wf_node(final(self).root),
            preserves_lookups(old(self).root, final(self).root),
            ids_extended(old(self).root, final(self).root, id),
            r is Err ==> *final(self) == *old(self),
            (r is Err) <==> (!clean_at(pattern@, 0) || pat_conflict(
                SlotKind::ScopeSlot,
                old(self).root,
                pattern@,
                id,
            )),
            match r {
                Ok(names) => {
                    &&& inserted(old(self).root, final(self).root, pattern@, SlotKind::ScopeSlot, id)
                    &&& match names {
                        Some(ns) => ns.names.deep_view() == scan_names(pattern@, 0)
                            && ns.has_wildcard == scan_wildcard(pattern@, 0) && (ns.names@.len() > 0
                            || ns.has_wildcard),
                        None => scan_names(pattern@, 0).len() == 0 && !scan_wildcard(pattern@, 0),
                    }
                },
                Err(e) => e.kind == (if !clean_at(pattern@, 0) {
                    ErrorKind::InvalidPatternSyntax
                } else if scan_wildcard(pattern@, 0) {
                    ErrorKind::DuplicateWildcard
                } else {
                    ErrorKind::DuplicateRoute
                }),
            },
            r is Ok && no_marker(pattern@) ==> (forall|q: Seq<u8>|
                q != pattern@ ==> #[trigger] lookup_scope(final(self).root, q) == lookup_scope(
                    old(self).root,
                    q,
                )) && (forall|q: Seq<u8>| #[trigger]
                lookup_route(final(self).root, q) == lookup_route(old(self).root, q)),
            no_marker(pattern@) && static_only(old(self).root) ==> static_only(final(self).root),
            no_marker(pattern@) ==> match r {
                Ok(names) => names is None && lookup_scope(final(self).root, pattern@) == Some(id)
                    && (lookup_scope(old(self).root, pattern@) is None || lookup_scope(
                    old(self).root,
                    pattern@,
                ) == Some(id)),
                Err(e) => e.kind == ErrorKind::DuplicateRoute && lookup_scope(
                    old(self).root,
                    pattern@,
                ) is Some && lookup_scope(old(self).root, pattern@) != Some(id),
            },
    {
        proof {
            assert(pattern@.skip(0) =~= pattern@);
            if no_marker(pattern@) {
                assert(clean_at(pattern@, 0));
                crate::tree::lemma_pat_lookup_no_marker(old(self).root, pattern@);
                lemma_scan_skip_literals(pattern@, 0, pattern@.len() as int);
            }
        }
        if !marks_after_slash(pattern) {
            return Err(Error { kind: ErrorKind::InvalidPatternSyntax });
        }
        if let Some(k) = probe(&self.root, pattern, 0, SlotKind::ScopeSlot, id) {
            return Err(Error { kind: k });
        }
        let mut names = ParamNames { names: Vec::new(), has_wildcard: false };
        let r = insert_at(&mut self.root, pattern, 0, SlotKind::ScopeSlot, id, &mut names);
        proof {
            assert(names.names.deep_view() =~= scan_names(pattern@, 0));
            if no_marker(pattern@) {
                assert forall|q: Seq<u8>| q != pattern@ implies #[trigger] lookup_scope(
                    self.root,
                    q,
                ) == lookup_scope(old(self).root, q) by {
                    assert(slot_lookup(SlotKind::ScopeSlot, self.root, q) == slot_lookup(
                        SlotKind::ScopeSlot,
                        old(self).root,
                        q,
                    ));
                }
                assert forall|q: Seq<u8>| #[trigger] lookup_route(self.root, q) == lookup_route(
                    old(self).root,
                    q,
                ) by {
                    assert(other_slot_lookup(SlotKind::ScopeSlot, self.root, q)
                        == other_slot_lookup(SlotKind::ScopeSlot, old(self).root, q));
                }
            }
        }
        match r {
            Ok(()) => {
                if names.names.len() == 0 && !names.has_wildcard {
                    Ok(None)
                } else {
                    Ok(Some(names))
                }
            },
            Err(e) => Err(e),
        }
    }
}

} // verus!
