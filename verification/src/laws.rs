//! Global properties of the tree, proved once and for all.
//!
//! The central law: a purely literal pattern that is registered as a route
//! is recognized — the descent returns exactly its identifier, captures no
//! parameter spans and no wildcard. Together with the insertion contracts
//! (`Tree::insert_route` registers a literal pattern, and every insertion
//! preserves what was registered before) this holds for every literal
//! pattern over any registration history.
//!
//! On trees that hold only static children — the shape a history of purely
//! literal registrations maintains — recognition is characterized
//! completely: the route is the static lookup's result and the scope list
//! is exactly the scopes registered under the path's reachable prefixes,
//! outermost first.
//!
//! For patterns with parameters or a wildcard, the chain a registration
//! materializes into a fresh tree recognizes exactly the paths that match
//! the pattern's text. And whatever the tree, every captured span lies
//! inside the path, parameter spans come in order and pairwise disjoint
//! with no `/` inside, and the wildcard span follows them.

use vstd::prelude::*;

use crate::tree::{
    find_static_from, ids_below, is_match_at, lemma_find_static_from, lemma_lookup_in_segs_none,
    lemma_lookup_in_segs_step, lemma_next_slash_bounds, lookup_in_segs, lookup_node, lookup_route,
    lookup_scope, next_slash, no_marker, prefix_scopes, spec_desc, static_only,
    static_segs_shallow_wf, wf_node, Node, SLASH,
};

verus! {

broadcast use vstd::std_specs::vec::axiom_vec_index_decreases;

/// A registered literal pattern suffix is followed by the recognition
/// descent: from any node, if the static-only lookup of the unconsumed
/// tail finds a route, the descent from that node returns exactly that
/// route, with no captures.
proof fn lemma_desc_follows_lookup(n: Node, path: Seq<u8>, off: int)
    requires
        wf_node(n),
        0 <= off <= path.len(),
        lookup_route(n, path.skip(off)) is Some,
    ensures
        spec_desc(n, path, off).route == lookup_route(n, path.skip(off)),
        spec_desc(n, path, off).params == Seq::<(int, int)>::empty(),
        spec_desc(n, path, off).wildcard is None,
    decreases n,
{
    let p = path.skip(off);
    if off == path.len() {
        assert(p =~= Seq::<u8>::empty());
        assert(lookup_node(n, p) == Some(n));
    } else {
        assert(p.len() > 0);
        let segs = n.static_segments@;
        // The lookup succeeded, so some static child matches the tail.
        assert(lookup_in_segs(segs, p) is Some);
        let i = choose|i: int|
            0 <= i < segs.len() && (#[trigger] segs[i]).segment@.len() > 0 && is_match_at(
                segs[i].segment@,
                p,
                0,
            );
        assert(0 <= i < segs.len() && is_match_at(segs[i].segment@, p, 0));
        let seg = segs[i].segment@;
        assert(is_match_at(seg, path, off)) by {
            assert(path.subrange(off, off + seg.len()) =~= p.subrange(0, seg.len() as int));
        }
        // The descent takes the first matching child, which by the
        // distinct-first-byte invariant is the same one.
        lemma_find_static_from(segs, path, off, 0);
        match find_static_from(segs, path, off, 0) {
            Some(j) => {
                assert(is_match_at(segs[j].segment@, path, off));
                assert(is_match_at(segs[j].segment@, p, 0)) by {
                    assert(p.subrange(0, segs[j].segment@.len() as int) =~= path.subrange(
                        off,
                        off + segs[j].segment@.len(),
                    ));
                }
                assert(j == i) by {
                    if i != j {
                        assert(segs[i].segment@[0] == p[0]);
                        assert(segs[j].segment@[0] == p[0]);
                        if i < j {
                            assert(segs[i].segment@[0] != segs[j].segment@[0]);
                        } else {
                            assert(segs[j].segment@[0] != segs[i].segment@[0]);
                        }
                    }
                }
                lemma_lookup_in_segs_step(segs, p, i);
                assert(p.skip(seg.len() as int) =~= path.skip(off + seg.len()));
                assert(wf_node(segs[i].child));
                lemma_desc_follows_lookup(segs[i].child, path, off + seg.len());
            },
            None => {
                assert(false);
            },
        }
    }
}

/// Every literal pattern registered as a route is recognized: recognizing
/// the pattern's own text returns its route identifier, zero captured
/// parameter spans and no wildcard capture. `lookup_route(n, p) ==
/// Some(id)` is exactly what `Tree::insert_route` establishes for a
/// literal `p` and every later insertion preserves.
pub proof fn lemma_literal_route_recognized(n: Node, p: Seq<u8>, id: usize)
    requires
        wf_node(n),
        no_marker(p),
        lookup_route(n, p) == Some(id),
    ensures
        spec_desc(n, p, 0).route == Some(id),
        spec_desc(n, p, 0).params == Seq::<(int, int)>::empty(),
        spec_desc(n, p, 0).wildcard is None,
{
    assert(p.skip(0) =~= p);
    lemma_desc_follows_lookup(n, p, 0);
}

/// Every identifier the recognition descent reports — the route and each
/// accumulated scope — is an identifier stored in the tree, hence below
/// any bound the tree's identifiers respect.
pub proof fn lemma_desc_ids_below(n: Node, path: Seq<u8>, off: int, b: nat)
    requires
        ids_below(n, b),
    ensures
        match spec_desc(n, path, off).route {
            Some(r) => r < b,
            None => true,
        },
        forall|k: int|
            0 <= k < spec_desc(n, path, off).scopes.len() ==> spec_desc(n, path, off).scopes[k]
                < b,
    decreases n,
{
    let m = spec_desc(n, path, off);
    if off >= path.len() {
    } else {
        crate::tree::lemma_find_static_from(n.static_segments@, path, off, 0);
        match find_static_from(n.static_segments@, path, off, 0) {
            Some(i) => {
                let seg = n.static_segments@[i];
                assert(ids_below(seg.child, b));
                lemma_desc_ids_below(seg.child, path, off + seg.segment@.len(), b);
            },
            None => {
                match n.param_segment {
                    Some(c) => {
                        assert(ids_below(*c, b));
                        lemma_desc_ids_below(*c, path, next_slash(path, off), b);
                    },
                    None => {
                        crate::tree::lemma_find_wildcard_from(
                            n.wildcard_segments@,
                            path,
                            off,
                            0,
                        );
                        match crate::tree::find_wildcard_from(n.wildcard_segments@, path, off, 0) {
                            Some(i) => {
                                assert(ids_below(n.wildcard_segments@[i].child, b));
                            },
                            None => {},
                        }
                    },
                }
            },
        }
    }
}

/// The shape of everything the recognition descent captures. Each
/// parameter span lies inside the path at or after the current offset;
/// the spans come in pattern order, pairwise disjoint, each ending at or
/// before the next one starts; no parameter capture contains a `/` (it
/// runs exactly to the next one); and the wildcard span, if any, lies
/// inside the path after every parameter span.
pub proof fn lemma_desc_spans_bounded(n: Node, path: Seq<u8>, off: int)
    requires
        0 <= off <= path.len(),
    ensures
        forall|k: int|
            0 <= k < spec_desc(n, path, off).params.len() ==> {
                let s = #[trigger] spec_desc(n, path, off).params[k];
                off <= s.0 <= s.1 <= path.len()
            },
        forall|k: int|
            0 <= k && k + 1 < spec_desc(n, path, off).params.len()
                ==> (#[trigger] spec_desc(n, path, off).params[k]).1 <= spec_desc(
                n,
                path,
                off,
            ).params[k + 1].0,
        forall|k: int, m: int|
            #![trigger spec_desc(n, path, off).params[k], path[m]]
            0 <= k < spec_desc(n, path, off).params.len() && spec_desc(n, path, off).params[k].0
                <= m < spec_desc(n, path, off).params[k].1 ==> path[m] != SLASH,
        match spec_desc(n, path, off).wildcard {
            Some(w) => off <= w.0 <= w.1 <= path.len() && forall|k: int|
                0 <= k < spec_desc(n, path, off).params.len() ==> (#[trigger] spec_desc(
                    n,
                    path,
                    off,
                ).params[k]).1 <= w.0,
            None => true,
        },
    decreases n,
{
    if off >= path.len() {
    } else {
        crate::tree::lemma_find_static_from(n.static_segments@, path, off, 0);
        match find_static_from(n.static_segments@, path, off, 0) {
            Some(i) => {
                let seg = n.static_segments@[i];
                lemma_desc_spans_bounded(seg.child, path, off + seg.segment@.len());
            },
            None => {
                match n.param_segment {
                    Some(c) => {
                        let end = next_slash(path, off);
                        lemma_next_slash_bounds(path, off);
                        lemma_desc_spans_bounded(*c, path, end);
                        let m = spec_desc(n, path, off);
                        let sub = spec_desc(*c, path, end);
                        assert(forall|k: int|
                            0 <= k < sub.params.len() ==> m.params[k + 1] == sub.params[k]);
                    },
                    None => {
                        crate::tree::lemma_find_wildcard_from(
                            n.wildcard_segments@,
                            path,
                            off,
                            0,
                        );
                    },
                }
            },
        }
    }
}

/// When no static child matches the front of `p`, no prefix of `p` of
/// positive length reaches a node either: the remaining prefix scopes are
/// empty.
proof fn lemma_prefix_scopes_dead(n: Node, p: Seq<u8>, k: int)
    requires
        p.len() > 0,
        1 <= k <= p.len(),
        forall|j: int|
            0 <= j < n.static_segments@.len() ==> !is_match_at(
                (#[trigger] n.static_segments@[j]).segment@,
                p,
                0,
            ),
    ensures
        prefix_scopes(n, p, k) == Seq::<usize>::empty(),
    decreases p.len() - k,
{
    let pk = if k == p.len() {
        p
    } else {
        p.take(k)
    };
    assert(pk.len() == k);
    assert forall|j: int| 0 <= j < n.static_segments@.len() implies !is_match_at(
        (#[trigger] n.static_segments@[j]).segment@,
        pk,
        0,
    ) by {
        let seg = n.static_segments@[j].segment@;
        if is_match_at(seg, pk, 0) {
            assert(p.subrange(0, seg.len() as int) =~= pk.subrange(0, seg.len() as int));
            assert(is_match_at(seg, p, 0));
        }
    }
    lemma_lookup_in_segs_none(n.static_segments@, pk);
    if k < p.len() {
        lemma_prefix_scopes_dead(n, p, k + 1);
        assert(prefix_scopes(n, p, k) =~= Seq::<usize>::empty());
    }
}

/// While the prefix still ends inside the matched segment's literal, it
/// reaches no node: the prefix scopes from just after the shared start
/// equal those from the segment's end.
proof fn lemma_prefix_scopes_mid(n: Node, p: Seq<u8>, i: int, k: int)
    requires
        static_segs_shallow_wf(n.static_segments@),
        0 <= i < n.static_segments@.len(),
        is_match_at(n.static_segments@[i].segment@, p, 0),
        1 <= k <= n.static_segments@[i].segment@.len(),
    ensures
        prefix_scopes(n, p, k) == prefix_scopes(n, p, n.static_segments@[i].segment@.len() as int),
    decreases n.static_segments@[i].segment@.len() - k,
{
    let seg = n.static_segments@[i].segment@;
    if k < seg.len() {
        let pk = p.take(k);
        assert(pk.len() == k);
        assert forall|j: int| 0 <= j < n.static_segments@.len() implies !is_match_at(
            (#[trigger] n.static_segments@[j]).segment@,
            pk,
            0,
        ) by {
            let sj = n.static_segments@[j].segment@;
            if is_match_at(sj, pk, 0) {
                assert(p.subrange(0, sj.len() as int) =~= pk.subrange(0, sj.len() as int));
                assert(is_match_at(sj, p, 0));
                assert(sj[0] == p[0]);
                assert(seg[0] == p[0]);
                if i != j {
                    if i < j {
                        assert(seg[0] != sj[0]);
                    } else {
                        assert(sj[0] != seg[0]);
                    }
                }
                assert(j == i);
            }
        }
        lemma_lookup_in_segs_none(n.static_segments@, pk);
        lemma_prefix_scopes_mid(n, p, i, k + 1);
        assert(prefix_scopes(n, p, k) =~= prefix_scopes(n, p, seg.len() as int));
    }
}

/// From the matched segment's end on, each prefix of `p` reaches exactly
/// what the corresponding prefix of the unconsumed tail reaches below the
/// matched child.
proof fn lemma_prefix_scopes_shift(n: Node, p: Seq<u8>, i: int, k: int)
    requires
        static_segs_shallow_wf(n.static_segments@),
        0 <= i < n.static_segments@.len(),
        p.len() > 0,
        is_match_at(n.static_segments@[i].segment@, p, 0),
        n.static_segments@[i].segment@.len() <= k <= p.len(),
    ensures
        prefix_scopes(n, p, k) == prefix_scopes(
            n.static_segments@[i].child,
            p.skip(n.static_segments@[i].segment@.len() as int),
            k - n.static_segments@[i].segment@.len(),
        ),
    decreases p.len() - k,
{
    let seg = n.static_segments@[i].segment@;
    let ll = seg.len() as int;
    let child = n.static_segments@[i].child;
    let p2 = p.skip(ll);
    let pk = if k == p.len() {
        p
    } else {
        p.take(k)
    };
    assert(pk.len() == k);
    assert(is_match_at(seg, pk, 0)) by {
        assert(pk.subrange(0, ll) =~= p.subrange(0, ll));
    }
    assert(pk.len() > 0);
    lemma_lookup_in_segs_step(n.static_segments@, pk, i);
    if k == p.len() {
        assert(pk.skip(ll) =~= p2);
    } else {
        assert(pk.skip(ll) =~= p2.take(k - ll));
    }
    if k < p.len() {
        lemma_prefix_scopes_shift(n, p, i, k + 1);
        assert(prefix_scopes(n, p, k) =~= prefix_scopes(child, p2, k - ll));
    }
}

/// On a tree holding only static children — the shape that registering
/// purely literal patterns maintains — recognition is the static lookup
/// and nothing more: the route is exactly the lookup's result, no
/// parameter or wildcard spans are captured, and the scope list is
/// exactly the scopes registered under the path's reachable prefixes,
/// shortest (outermost) first.
pub proof fn lemma_static_only_desc(n: Node, path: Seq<u8>, off: int)
    requires
        wf_node(n),
        static_only(n),
        0 <= off <= path.len(),
    ensures
        spec_desc(n, path, off).route == lookup_route(n, path.skip(off)),
        spec_desc(n, path, off).params == Seq::<(int, int)>::empty(),
        spec_desc(n, path, off).wildcard is None,
        spec_desc(n, path, off).scopes == prefix_scopes(n, path.skip(off), 0),
    decreases n,
{
    let p = path.skip(off);
    if off == path.len() {
        assert(p =~= Seq::<u8>::empty());
        assert(lookup_node(n, p) == Some(n));
        assert(spec_desc(n, path, off).scopes =~= prefix_scopes(n, p, 0));
    } else {
        assert(p.len() > 0);
        assert(p.take(0) =~= Seq::<u8>::empty());
        assert(lookup_node(n, p.take(0)) == Some(n));
        lemma_find_static_from(n.static_segments@, path, off, 0);
        match find_static_from(n.static_segments@, path, off, 0) {
            Some(i) => {
                let seg = n.static_segments@[i].segment@;
                let child = n.static_segments@[i].child;
                assert(is_match_at(seg, p, 0)) by {
                    assert(p.subrange(0, seg.len() as int) =~= path.subrange(
                        off,
                        off + seg.len(),
                    ));
                }
                lemma_lookup_in_segs_step(n.static_segments@, p, i);
                assert(p.skip(seg.len() as int) =~= path.skip(off + seg.len()));
                assert(wf_node(child));
                assert(static_only(child));
                lemma_static_only_desc(child, path, off + seg.len());
                lemma_prefix_scopes_mid(n, p, i, 1);
                lemma_prefix_scopes_shift(n, p, i, seg.len() as int);
                assert(spec_desc(n, path, off).scopes =~= prefix_scopes(n, p, 0));
            },
            None => {
                assert forall|j: int| 0 <= j < n.static_segments@.len() implies !is_match_at(
                    (#[trigger] n.static_segments@[j]).segment@,
                    p,
                    0,
                ) by {
                    let seg = n.static_segments@[j].segment@;
                    if is_match_at(seg, p, 0) {
                        assert(path.subrange(off, off + seg.len()) =~= p.subrange(
                            0,
                            seg.len() as int,
                        ));
                        assert(is_match_at(seg, path, off));
                    }
                }
                lemma_lookup_in_segs_none(n.static_segments@, p);
                lemma_prefix_scopes_dead(n, p, 1);
                assert(spec_desc(n, path, off).scopes =~= prefix_scopes(n, p, 0));
            },
        }
    }
}


/// Does the path suffix from `off` on match the pattern suffix `p`, the
/// way the recognition engine reads patterns: literal runs byte-for-byte,
/// a `:` name consuming up to the next `/`, and a `*` consuming the rest
/// of the path provided the slug ends it? A parameter or wildcard matches
/// only where some path byte is left, since a descent stops — parameter
/// and wildcard children untried — once the path is consumed.
pub open spec fn pattern_matches_from(p: Seq<u8>, path: Seq<u8>, off: int) -> bool
    decreases p.len(),
    via pattern_matches_from_decreases
{
    if p.len() == 0 {
        off == path.len()
    } else if p[0] == crate::tree::PARAM_MARK {
        off < path.len() && pattern_matches_from(
            p.skip(next_slash(p, 1)),
            path,
            next_slash(path, off),
        )
    } else if p[0] == crate::tree::WILDCARD_MARK {
        off < path.len() && crate::tree::is_slug_match_at(p.skip(1), path, off)
    } else {
        let e = crate::insert::next_marker(p, 0);
        is_match_at(p.subrange(0, e), path, off) && pattern_matches_from(p.skip(e), path, off + e)
    }
}

#[via_fn]
proof fn pattern_matches_from_decreases(p: Seq<u8>, path: Seq<u8>, off: int) {
    if p.len() > 0 {
        if p[0] == crate::tree::PARAM_MARK {
            lemma_next_slash_bounds(p, 1);
        } else if p[0] != crate::tree::WILDCARD_MARK {
            crate::insert::lemma_next_marker_bounds(p, 0);
        }
    }
}

/// A freshly materialized pattern chain recognizes exactly what its
/// pattern says: descending it with a path suffix that matches the
/// pattern reaches the registered route, and one that does not match
/// reaches no route; no scopes are reported either way. Together with
/// [`crate::insert::lemma_inserted_empty`] this says of a pattern
/// registered into a fresh tree that recognition returns its identifier
/// on every matching path and none otherwise.
pub proof fn lemma_fresh_chain_recognizes(n: Node, p: Seq<u8>, id: usize, path: Seq<u8>, off: int)
    requires
        crate::insert::fresh_tail(n, p, crate::insert::SlotKind::RouteSlot, id),
        0 <= off <= path.len(),
    ensures
        spec_desc(n, path, off).route == (if pattern_matches_from(p, path, off) {
            Some(id)
        } else {
            None::<usize>
        }),
        spec_desc(n, path, off).scopes == Seq::<usize>::empty(),
    decreases p.len(),
{
    if p.len() == 0 {
        if off < path.len() {
            crate::tree::lemma_find_static_from(n.static_segments@, path, off, 0);
            crate::tree::lemma_find_wildcard_from(n.wildcard_segments@, path, off, 0);
        }
        assert(spec_desc(n, path, off).scopes =~= Seq::<usize>::empty());
    } else if p[0] == crate::tree::PARAM_MARK {
        lemma_next_slash_bounds(p, 1);
        if off < path.len() {
            crate::tree::lemma_find_static_from(n.static_segments@, path, off, 0);
            let end = next_slash(path, off);
            lemma_next_slash_bounds(path, off);
            let c = n.param_segment.unwrap();
            lemma_fresh_chain_recognizes(*c, p.skip(next_slash(p, 1)), id, path, end);
        } else {
            assert(spec_desc(n, path, off).route == n.route);
        }
        assert(spec_desc(n, path, off).scopes =~= Seq::<usize>::empty());
    } else if p[0] == crate::tree::WILDCARD_MARK {
        if off < path.len() {
            crate::tree::lemma_find_static_from(n.static_segments@, path, off, 0);
            crate::tree::lemma_find_wildcard_from(n.wildcard_segments@, path, off, 0);
        }
        assert(spec_desc(n, path, off).scopes =~= Seq::<usize>::empty());
    } else {
        let e = crate::insert::next_marker(p, 0);
        crate::insert::lemma_next_marker_bounds(p, 0);
        let seg = n.static_segments@[0].segment@;
        assert(seg == p.subrange(0, e));
        assert(seg.len() == e);
        crate::tree::lemma_find_static_from(n.static_segments@, path, off, 0);
        if off < path.len() {
            match find_static_from(n.static_segments@, path, off, 0) {
                Some(i) => {
                    assert(i == 0);
                    lemma_fresh_chain_recognizes(
                        n.static_segments@[0].child,
                        p.skip(e),
                        id,
                        path,
                        off + e,
                    );
                },
                None => {
                    assert(!is_match_at(seg, path, off));
                    assert(!pattern_matches_from(p, path, off));
                },
            }
        } else {
            assert(!is_match_at(seg, path, off)) by {
                assert(seg.len() > 0);
            }
            assert(spec_desc(n, path, off).route == n.route);
        }
        assert(spec_desc(n, path, off).scopes =~= Seq::<usize>::empty());
    }
}

} // verus!
