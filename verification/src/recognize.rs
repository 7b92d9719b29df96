//! The recognition engine: a single read-only descent over the tree.
//!
//! At each visited node, strictly in this order, the first applicable
//! option is taken: a static child standing byte-for-byte at the current
//! offset; the parameter child, capturing up to the next `/`; a wildcard
//! child whose slug ends the path. There is no backtracking. The result is
//! exactly [`crate::tree::spec_desc`] of the root.

use vstd::prelude::*;

use crate::tree::{
    find_static_from, find_wildcard_from, is_match_at, is_slug_match_at, next_slash, scope_seq,
    span_opt_view, spans_view, spec_desc, Node, Tree, SLASH,
};

verus! {

broadcast use vstd::std_specs::vec::axiom_vec_index_decreases;

/// What one recognition pass returns: the matched route (if the whole path
/// was consumed at a route-bearing node), the captured parameter spans, the
/// wildcard span, and every scope descended through, outer to inner. Spans
/// are half-open byte-offset ranges into the recognized path.
#[derive(Debug)]
pub struct Recognized {
    /// The route terminating exactly where the path was fully consumed.
    pub route: Option<usize>,
    /// Captured parameter spans, in pattern order.
    pub params: Vec<(usize, usize)>,
    /// The wildcard capture span, if a wildcard child ended the descent.
    pub wildcard: Option<(usize, usize)>,
    /// Scope identifiers of every node descended through, outer to inner.
    pub scopes: Vec<usize>,
}

/// Does `seg` stand byte-for-byte at position `off` of `path`?
fn seg_matches_at(seg: &[u8], path: &[u8], off: usize) -> (r: bool)
    ensures
        r == is_match_at(seg@, path@, off as int),
{
    if off > path.len() || seg.len() > path.len() - off {
        return false;
    }
    let mut j: usize = 0;
    while j < seg.len()
        invariant
            off + seg.len() <= path.len(),
            j <= seg.len(),
            forall|m: int| 0 <= m < j ==> path@[off + m] == seg@[m],
        decreases seg.len() - j,
    {
        if path[off + j] != seg[j] {
            return false;
        }
        j = j + 1;
    }
    proof {
        assert(path@.subrange(off as int, off + seg@.len()) =~= seg@);
    }
    true
}

/// Does `slug` end `path`, without reaching back before position `off`?
fn slug_matches_at(slug: &[u8], path: &[u8], off: usize) -> (r: bool)
    ensures
        r == is_slug_match_at(slug@, path@, off as int),
{
    if off > path.len() || slug.len() > path.len() - off {
        return false;
    }
    let start: usize = path.len() - slug.len();
    let mut j: usize = 0;
    while j < slug.len()
        invariant
            off + slug.len() <= path.len(),
            start == path.len() - slug.len(),
            j <= slug.len(),
            forall|m: int| 0 <= m < j ==> path@[start + m] == slug@[m],
        decreases slug.len() - j,
    {
        if path[start + j] != slug[j] {
            return false;
        }
        j = j + 1;
    }
    proof {
        assert(path@.subrange(path@.len() - slug@.len(), path@.len() as int) =~= slug@);
    }
    true
}

/// The first static child of `n` standing at `off` of `path`, if any.
fn find_static_child(n: &Node, path: &[u8], off: usize) -> (r: Option<usize>)
    ensures
        match r {
            Some(i) => Some(i as int) == find_static_from(n.static_segments@, path@, off as int, 0)
                && i < n.static_segments@.len(),
            None => find_static_from(n.static_segments@, path@, off as int, 0) is None,
        },
{
    let mut k: usize = 0;
    while k < n.static_segments.len()
        invariant
            k <= n.static_segments@.len(),
            find_static_from(n.static_segments@, path@, off as int, 0) == find_static_from(
                n.static_segments@,
                path@,
                off as int,
                k as int,
            ),
        decreases n.static_segments@.len() - k,
    {
        if seg_matches_at(n.static_segments[k].segment.as_slice(), path, off) {
            return Some(k);
        }
        k = k + 1;
    }
    None
}

/// The first wildcard child of `n` whose slug ends `path`, if any.
fn find_wildcard_child(n: &Node, path: &[u8], off: usize) -> (r: Option<usize>)
    ensures
        match r {
            Some(i) => Some(i as int) == find_wildcard_from(
                n.wildcard_segments@,
                path@,
                off as int,
                0,
            ) && i < n.wildcard_segments@.len(),
            None => find_wildcard_from(n.wildcard_segments@, path@, off as int, 0) is None,
        },
{
    let mut k: usize = 0;
    while k < n.wildcard_segments.len()
        invariant
            k <= n.wildcard_segments@.len(),
            find_wildcard_from(n.wildcard_segments@, path@, off as int, 0) == find_wildcard_from(
                n.wildcard_segments@,
                path@,
                off as int,
                k as int,
            ),
        decreases n.wildcard_segments@.len() - k,
    {
        if slug_matches_at(n.wildcard_segments[k].slug.as_slice(), path, off) {
            return Some(k);
        }
        k = k + 1;
    }
    None
}

/// The position of the first `/` at or after `off`, or the end of `path`.
pub(crate) fn find_next_slash(path: &[u8], off: usize) -> (end: usize)
    requires
        off <= path@.len(),
    ensures
        end == next_slash(path@, off as int),
        off <= end <= path@.len(),
{
    let mut j: usize = off;
    while j < path.len()
        invariant
            off <= j <= path@.len(),
            next_slash(path@, off as int) == next_slash(path@, j as int),
        decreases path@.len() - j,
    {
        if path[j] == SLASH {
            return j;
        }
        j = j + 1;
    }
    j
}

/// One recognition descent from `n`, appending captures and scopes to
/// `acc`. The route and wildcard of `acc` must still be unset; on return
/// they hold exactly what the specification descent from `n` yields.
fn descend(n: &Node, path: &[u8], off: usize, acc: &mut Recognized)
    requires
        off <= path@.len(),
        old(acc).route is None,
        old(acc).wildcard is None,
    ensures
        ({
            let m = spec_desc(*n, path@, off as int);
            &&& final(acc).route == m.route
            &&& spans_view(final(acc).params@) == spans_view(old(acc).params@) + m.params
            &&& span_opt_view(final(acc).wildcard) == m.wildcard
            &&& final(acc).scopes@ == old(acc).scopes@ + m.scopes
        }),
    decreases *n,
{
    let ghost pre = *acc;
    if let Some(s) = n.scope {
        acc.scopes.push(s);
    }
    proof {
        assert(acc.scopes@ =~= pre.scopes@ + scope_seq(*n));
    }
    if off >= path.len() {
        acc.route = n.route;
        proof {
            assert(spans_view(acc.params@) =~= spans_view(pre.params@) + spec_desc(
                *n,
                path@,
                off as int,
            ).params);
        }
        return;
    }
    match find_static_child(n, path, off) {
        Some(i) => {
            proof {
                crate::tree::lemma_find_static_from(n.static_segments@, path@, off as int, 0);
                assert(decreases_to!(*n => n.static_segments@[i as int].child));
            }
            let seg = &n.static_segments[i];
            descend(&seg.child, path, off + seg.segment.len(), acc);
            proof {
                let m = spec_desc(*n, path@, off as int);
                let sub = spec_desc(seg.child, path@, off + seg.segment@.len());
                assert(acc.scopes@ =~= pre.scopes@ + m.scopes);
            }
        },
        None => {
            match &n.param_segment {
                Some(c) => {
                    let end = find_next_slash(path, off);
                    acc.params.push((off, end));
                    proof {
                        assert(spans_view(acc.params@) =~= spans_view(pre.params@) + seq![
                            (off as int, end as int),
                        ]);
                    }
                    descend(c, path, end, acc);
                    proof {
                        let m = spec_desc(*n, path@, off as int);
                        let sub = spec_desc(**c, path@, end as int);
                        assert(m.params =~= seq![(off as int, end as int)] + sub.params);
                        assert(spans_view(acc.params@) =~= spans_view(pre.params@) + m.params);
                        assert(acc.scopes@ =~= pre.scopes@ + m.scopes);
                    }
                },
                None => {
                    match find_wildcard_child(n, path, off) {
                        Some(i) => {
                            proof {
                                crate::tree::lemma_find_wildcard_from(
                                    n.wildcard_segments@,
                                    path@,
                                    off as int,
                                    0,
                                );
                            }
                            let w = &n.wildcard_segments[i];
                            acc.wildcard = Some((off, path.len() - w.slug.len()));
                            acc.route = w.child.route;
                            proof {
                                assert(spans_view(acc.params@) =~= spans_view(pre.params@)
                                    + spec_desc(*n, path@, off as int).params);
                            }
                        },
                        None => {
                            proof {
                                assert(spans_view(acc.params@) =~= spans_view(pre.params@)
                                    + spec_desc(*n, path@, off as int).params);
                            }
                        },
                    }
                },
            }
        },
    }
}

impl Tree {
    /// Recognize `path`: descend once from the root, read-only, and report
    /// the matched route (if the path was consumed exactly at a
    /// route-bearing node), the captured spans, and the scopes descended
    /// through. The result is exactly the specification descent
    /// [`spec_desc`] from the root at offset zero.
    pub fn recognize(&self, path: &[u8]) -> (r: Recognized)
        ensures
            ({
                let m = spec_desc(self.root, path@, 0);
                &&& r.route == m.route
                &&& spans_view(r.params@) == m.params
                &&& span_opt_view(r.wildcard) == m.wildcard
                &&& r.scopes@ == m.scopes
            }),
    {
        let mut acc = Recognized { route: None, params: Vec::new(), wildcard: None, scopes: Vec::new() };
        descend(&self.root, path, 0, &mut acc);
        proof {
            let m = spec_desc(self.root, path@, 0);
            assert(spans_view(acc.params@) =~= m.params);
            assert(acc.scopes@ =~= m.scopes);
        }
        acc
    }
}

} // verus!
