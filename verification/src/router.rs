//! The router: the pattern tree plus insertion-ordered endpoint storage.
//!
//! Identifiers are handed out sequentially, so the endpoint map always
//! holds exactly the keys below the next identifier, and every identifier
//! stored in the tree resolves to an endpoint.

use vstd::prelude::*;
use vstd::string::StringSliceAdditionalSpecFns;

use crate::endpoint::{Endpoint, EndpointId};
use crate::error::{Error, ErrorKind};
use crate::insert::{
    clean_at, inserted, pat_conflict, preserves_lookups, scan_names, scan_wildcard, SlotKind,
};
use crate::laws::{lemma_desc_ids_below, lemma_desc_spans_bounded};
use crate::param::Params;
use crate::tree::{
    ids_below, is_empty_node, lemma_ids_below_mono, lemma_lookup_ids_below,
    lemma_pat_lookup_ids_below, lookup_route, lookup_scope, no_marker, pat_route, pat_scope,
    span_opt_view, spans_view, spec_desc, static_only, wf_node, Node, Tree,
};

verus! {

/// The insertion-ordered map this router stores its endpoints in.
#[verifier::external_type_specification]
#[verifier::external_body]
#[verifier::reject_recursive_types(K)]
#[verifier::reject_recursive_types(V)]
#[verifier::reject_recursive_types(S)]
pub struct ExIndexMap<K, V, S>(indexmap::IndexMap<K, V, S>);

/// Endpoint storage: an insertion-ordered map from identifier index to
/// endpoint, with its contents as a ghost map.
#[verifier::reject_recursive_types(T)]
struct EndpointTable<T> {
    map: indexmap::IndexMap<usize, Endpoint<T>>,
    model: Ghost<Map<usize, Endpoint<T>>>,
}

/// Relies on indexmap::IndexMap::new: creates an empty map, so the ghost
/// model of the fresh table is the empty map.
#[verifier::external_body]
fn table_new<T>() -> (t: EndpointTable<T>)
    ensures
        match t {
            EndpointTable { map: _, model } => model@ == Map::<usize, Endpoint<T>>::empty(),
        },
{
    EndpointTable { map: indexmap::IndexMap::new(), model: Ghost(Map::empty()) }
}

/// Relies on indexmap::IndexMap::insert: stores `v` under `k`, replacing
/// the value of an equal key and keeping its place in the order.
#[verifier::external_body]
fn table_insert<T>(t: &mut EndpointTable<T>, k: usize, v: Endpoint<T>)
    ensures
        final(t).model@ == old(t).model@.insert(k, v),
{
    t.map.insert(k, v);
}

/// Relies on indexmap::IndexMap::get: returns a reference to the value
/// stored under an equal key, if one is present.
#[verifier::external_body]
fn table_get<'a, T>(t: &'a EndpointTable<T>, k: usize) -> (r: Option<&'a Endpoint<T>>)
    ensures
        match r {
            Some(e) => t.model@.contains_key(k) && *e == t.model@[k],
            None => !t.model@.contains_key(k),
        },
{
    t.map.get(&k)
}

/// Relies on indexmap::IndexMap::get_mut: returns a mutable reference to
/// the value stored under an equal key, if one is present.
#[verifier::external_body]
fn table_get_mut<'a, T>(t: &'a mut EndpointTable<T>, k: usize) -> (r: Option<
    &'a mut Endpoint<T>,
>)
    ensures
        match r {
            Some(e) => old(t).model@.contains_key(k) && *e == old(t).model@[k] && final(t).model@
                == old(t).model@.insert(k, *final(e)),
            None => !old(t).model@.contains_key(k) && final(t).model@ == old(t).model@,
        },
{
    t.map.get_mut(&k)
}

/// An HTTP router.
#[verifier::reject_recursive_types(T)]
pub struct Router<T> {
    tree: Tree,
    endpoints: EndpointTable<T>,
    next_id: usize,
}

impl<T> Router<T> {
    /// The root of the pattern tree, for specification purposes.
    pub closed spec fn spec_root(self) -> Node {
        self.tree.root
    }

    /// The registered endpoints, keyed by identifier index.
    pub closed spec fn spec_endpoints(self) -> Map<usize, Endpoint<T>> {
        self.endpoints.model@
    }

    /// How many endpoints are registered; also the next identifier.
    pub closed spec fn spec_len(self) -> nat {
        self.next_id as nat
    }

    /// The router's invariant: the tree is well-formed, every identifier
    /// it stores is below the next one, the endpoint map holds exactly
    /// the identifiers handed out so far, and each endpoint is stored
    /// under its own identifier.
    pub closed spec fn wf(self) -> bool {
        &&& wf_node(self.tree.root)
        &&& ids_below(self.tree.root, self.next_id as nat)
        &&& forall|k: usize| #[trigger] self.endpoints.model@.contains_key(k) <==> k < self.next_id
        &&& forall|k: usize|
            k < self.next_id ==> (#[trigger] self.endpoints.model@[k]).id == EndpointId(k)
    }

    /// Create an empty router.
    pub fn new() -> (r: Self)
        ensures
            r.wf(),
            r.spec_len() == 0,
            r.spec_endpoints() == Map::<usize, Endpoint<T>>::empty(),
            is_empty_node(r.spec_root()),
            static_only(r.spec_root()),
    {
        Router { tree: Tree::new(), endpoints: table_new(), next_id: 0 }
    }

    /// Adds a route to this router, under the next identifier. For a
    /// purely literal path the contract is exact: registration fails,
    /// with `DuplicateRoute`, exactly when the path is already registered
    /// as a route (its identifier is necessarily a different one);
    /// otherwise the path is found afterwards under the new identifier
    /// and no other registration changes. A failed registration adds no
    /// endpoint and changes no registered pattern's lookup, whatever the
    /// path's shape.
    pub fn add_route(&mut self, path: &str, data: T) -> (r: Result<EndpointId, Error>)
        requires
            old(self).wf(),
            old(self).spec_len() < usize::MAX,
        ensures
            final(self).wf(),
            preserves_lookups(old(self).spec_root(), final(self).spec_root()),
            no_marker(path.spec_bytes()) ==> ((r is Err) <==> lookup_route(
                old(self).spec_root(),
                path.spec_bytes(),
            ) is Some),
            (r is Err) <==> (!clean_at(path.spec_bytes(), 0) || pat_route(
                old(self).spec_root(),
                path.spec_bytes(),
            ) is Some),
            r is Err ==> *final(self) == *old(self),
            r is Ok && no_marker(path.spec_bytes()) ==> (forall|q: Seq<u8>|
                q != path.spec_bytes() ==> #[trigger] lookup_route(final(self).spec_root(), q)
                    == lookup_route(old(self).spec_root(), q)) && (forall|q: Seq<u8>| #[trigger]
                lookup_scope(final(self).spec_root(), q) == lookup_scope(
                    old(self).spec_root(),
                    q,
                )),
            no_marker(path.spec_bytes()) && static_only(old(self).spec_root()) ==> static_only(
                final(self).spec_root(),
            ),
            match r {
                Ok(id) => {
                    &&& inserted(
                        old(self).spec_root(),
                        final(self).spec_root(),
                        path.spec_bytes(),
                        SlotKind::RouteSlot,
                        id.0,
                    )
                    &&& id.0 == old(self).spec_len()
                    &&& final(self).spec_len() == old(self).spec_len() + 1
                    &&& final(self).spec_endpoints() == old(self).spec_endpoints().insert(
                        id.0,
                        final(self).spec_endpoints()[id.0],
                    )
                    &&& final(self).spec_endpoints().contains_key(id.0)
                    &&& final(self).spec_endpoints()[id.0].id == id
                    &&& final(self).spec_endpoints()[id.0].path@ == path@
                    &&& final(self).spec_endpoints()[id.0].data == data
                    &&& (no_marker(path.spec_bytes()) ==> lookup_route(
                        final(self).spec_root(),
                        path.spec_bytes(),
                    ) == Some(id.0))
                    &&& match final(self).spec_endpoints()[id.0].names {
                        Some(ns) => ns.names.deep_view() == scan_names(path.spec_bytes(), 0)
                            && ns.has_wildcard == scan_wildcard(path.spec_bytes(), 0),
                        None => scan_names(path.spec_bytes(), 0).len() == 0 && !scan_wildcard(
                            path.spec_bytes(),
                            0,
                        ),
                    }
                },
                Err(e) => {
                    &&& final(self).spec_len() == old(self).spec_len()
                    &&& final(self).spec_endpoints() == old(self).spec_endpoints()
                    &&& e.kind == (if !clean_at(path.spec_bytes(), 0) {
                        ErrorKind::InvalidPatternSyntax
                    } else if scan_wildcard(path.spec_bytes(), 0) {
                        ErrorKind::DuplicateWildcard
                    } else {
                        ErrorKind::DuplicateRoute
                    })
                },
            },
    {
        let id = self.next_id;
        let bytes: &[u8] = path.as_bytes();
        proof {
            lemma_lookup_ids_below(self.tree.root, bytes@, self.next_id as nat);
            lemma_pat_lookup_ids_below(self.tree.root, bytes@, self.next_id as nat);
        }
        let r = self.tree.insert_route(bytes, id);
        match r {
            Ok(names) => {
                let ep = Endpoint { id: EndpointId(id), path: path.to_owned(), names, data };
                table_insert(&mut self.endpoints, id, ep);
                self.next_id = id + 1;
                proof {
                    lemma_ids_below_mono(old(self).tree.root, id as nat, (id + 1) as nat);
                    assert(ids_below(self.tree.root, (id + 1) as nat));
                    assert(self.endpoints.model@ =~= old(self).endpoints.model@.insert(
                        id,
                        self.endpoints.model@[id],
                    ));
                }
                Ok(EndpointId(id))
            },
            Err(e) => {
                proof {
                    assert(*final(self) == *old(self));
                    assert(ids_below(self.tree.root, self.next_id as nat));
                }
                Err(e)
            },
        }
    }

    /// Adds a scope to this router, under the next identifier. The scope
    /// is reported by recognition for every path that descends through
    /// its node. The contract mirrors [`Router::add_route`], over the
    /// scope slots.
    pub fn add_scope(&mut self, path: &str, data: T) -> (r: Result<EndpointId, Error>)
        requires
            old(self).wf(),
            old(self).spec_len() < usize::MAX,
        ensures
            final(self).wf(),
            preserves_lookups(old(self).spec_root(), final(self).spec_root()),
            no_marker(path.spec_bytes()) ==> ((r is Err) <==> lookup_scope(
                old(self).spec_root(),
                path.spec_bytes(),
            ) is Some),
            (r is Err) <==> (!clean_at(path.spec_bytes(), 0) || pat_scope(
                old(self).spec_root(),
                path.spec_bytes(),
            ) is Some),
            r is Err ==> *final(self) == *old(self),
            r is Ok && no_marker(path.spec_bytes()) ==> (forall|q: Seq<u8>|
                q != path.spec_bytes() ==> #[trigger] lookup_scope(final(self).spec_root(), q)
                    == lookup_scope(old(self).spec_root(), q)) && (forall|q: Seq<u8>| #[trigger]
                lookup_route(final(self).spec_root(), q) == lookup_route(
                    old(self).spec_root(),
                    q,
                )),
            no_marker(path.spec_bytes()) && static_only(old(self).spec_root()) ==> static_only(
                final(self).spec_root(),
            ),
            match r {
                Ok(id) => {
                    &&& inserted(
                        old(self).spec_root(),
                        final(self).spec_root(),
                        path.spec_bytes(),
                        SlotKind::ScopeSlot,
                        id.0,
                    )
                    &&& id.0 == old(self).spec_len()
                    &&& final(self).spec_len() == old(self).spec_len() + 1
                    &&& final(self).spec_endpoints() == old(self).spec_endpoints().insert(
                        id.0,
                        final(self).spec_endpoints()[id.0],
                    )
                    &&& final(self).spec_endpoints().contains_key(id.0)
                    &&& final(self).spec_endpoints()[id.0].id == id
                    &&& final(self).spec_endpoints()[id.0].path@ == path@
                    &&& final(self).spec_endpoints()[id.0].data == data
                    &&& (no_marker(path.spec_bytes()) ==> lookup_scope(
                        final(self).spec_root(),
                        path.spec_bytes(),
                    ) == Some(id.0))
                    &&& match final(self).spec_endpoints()[id.0].names {
                        Some(ns) => ns.names.deep_view() == scan_names(path.spec_bytes(), 0)
                            && ns.has_wildcard == scan_wildcard(path.spec_bytes(), 0),
                        None => scan_names(path.spec_bytes(), 0).len() == 0 && !scan_wildcard(
                            path.spec_bytes(),
                            0,
                        ),
                    }
                },
                Err(e) => {
                    &&& final(self).spec_len() == old(self).spec_len()
                    &&& final(self).spec_endpoints() == old(self).spec_endpoints()
                    &&& e.kind == (if !clean_at(path.spec_bytes(), 0) {
                        ErrorKind::InvalidPatternSyntax
                    } else if scan_wildcard(path.spec_bytes(), 0) {
                        ErrorKind::DuplicateWildcard
                    } else {
                        ErrorKind::DuplicateRoute
                    })
                },
            },
    {
        let id = self.next_id;
        let bytes: &[u8] = path.as_bytes();
        proof {
            lemma_lookup_ids_below(self.tree.root, bytes@, self.next_id as nat);
            lemma_pat_lookup_ids_below(self.tree.root, bytes@, self.next_id as nat);
        }
        let r = self.tree.insert_scope(bytes, id);
        match r {
            Ok(names) => {
                let ep = Endpoint { id: EndpointId(id), path: path.to_owned(), names, data };
                table_insert(&mut self.endpoints, id, ep);
                self.next_id = id + 1;
                proof {
                    lemma_ids_below_mono(old(self).tree.root, id as nat, (id + 1) as nat);
                    assert(ids_below(self.tree.root, (id + 1) as nat));
                    assert(self.endpoints.model@ =~= old(self).endpoints.model@.insert(
                        id,
                        self.endpoints.model@[id],
                    ));
                }
                Ok(EndpointId(id))
            },
            Err(e) => {
                proof {
                    assert(*final(self) == *old(self));
                    assert(ids_below(self.tree.root, self.next_id as nat));
                }
                Err(e)
            },
        }
    }

    /// How many endpoints are registered; also the next identifier to be
    /// handed out.
    pub fn len(&self) -> (r: usize)
        ensures
            r == self.spec_len(),
    {
        self.next_id
    }

    /// Returns a reference to the endpoint with the specified ID.
    pub fn endpoint(&self, id: EndpointId) -> (r: Option<&Endpoint<T>>)
        ensures
            match r {
                Some(e) => self.spec_endpoints().contains_key(id.0) && *e == self.spec_endpoints()[
                    id.0
                ],
                None => !self.spec_endpoints().contains_key(id.0),
            },
    {
        table_get(&self.endpoints, id.0)
    }

    /// Returns a mutable reference to the endpoint with the specified ID.
    pub fn endpoint_mut(&mut self, id: EndpointId) -> (r: Option<&mut Endpoint<T>>)
        ensures
            match r {
                Some(e) => old(self).spec_endpoints().contains_key(id.0) && *e == old(
                    self,
                ).spec_endpoints()[id.0] && final(self).spec_endpoints() == old(
                    self,
                ).spec_endpoints().insert(id.0, *final(e)),
                None => !old(self).spec_endpoints().contains_key(id.0)
                    && final(self).spec_endpoints() == old(self).spec_endpoints(),
            },
            final(self).spec_root() == old(self).spec_root(),
            final(self).spec_len() == old(self).spec_len(),
    {
        table_get_mut(&mut self.endpoints, id.0)
    }

    /// Searches for the route matching the provided path: one read-only
    /// descent of the tree. The result carries the matched route's
    /// endpoint (if the whole path was consumed at a route-bearing node),
    /// the innermost scope descended through, the captured parameter
    /// spans and the wildcard span — all exactly as the specification
    /// descent [`spec_desc`] defines them.
    pub fn recognize<'r>(&'r self, path: &str) -> (r: Recognize<'r, T>)
        requires
            self.wf(),
        ensures
            ({
                let m = spec_desc(self.spec_root(), path.spec_bytes(), 0);
                &&& match m.route {
                    Some(rid) => r.spec_route() is Some && r.spec_route().unwrap()
                        == self.spec_endpoints()[rid],
                    None => r.spec_route() is None,
                }
                &&& (m.scopes.len() > 0 ==> r.spec_scope() is Some && r.spec_scope().unwrap()
                    == self.spec_endpoints()[m.scopes.last()])
                &&& (m.scopes.len() == 0 ==> r.spec_scope() is None)
                &&& spans_view(r.spec_params()) == m.params
                &&& span_opt_view(r.spec_wildcard()) == m.wildcard
                &&& r.spec_path() == path.spec_bytes()
            }),
    {
        let bytes: &[u8] = path.as_bytes();
        proof {
            lemma_desc_ids_below(self.tree.root, bytes@, 0, self.next_id as nat);
            lemma_desc_spans_bounded(self.tree.root, bytes@, 0);
        }
        let rec = self.tree.recognize(bytes);
        let route_ep: Option<&Endpoint<T>> = match rec.route {
            Some(rid) => table_get(&self.endpoints, rid),
            None => None,
        };
        let scope_ep: Option<&Endpoint<T>> = if rec.scopes.len() > 0 {
            let sid = rec.scopes[rec.scopes.len() - 1];
            table_get(&self.endpoints, sid)
        } else {
            None
        };
        let path_bytes = vstd::slice::slice_to_vec(bytes);
        proof {
            let m = spec_desc(self.spec_root(), path.spec_bytes(), 0);
            assert(path_bytes@ == bytes@);
            assert forall|k: int| 0 <= k < rec.params@.len() implies (#[trigger] rec.params@[k]).0
                <= rec.params@[k].1 <= path_bytes@.len() by {
                assert(spans_view(rec.params@)[k] == m.params[k]);
            }
            match rec.wildcard {
                Some(w) => {
                    assert(m.wildcard == Some((w.0 as int, w.1 as int)));
                    assert(w.0 <= w.1 <= path_bytes@.len());
                },
                None => {},
            }
        }
        Recognize {
            route_ep,
            scope_ep,
            path: path_bytes,
            params: rec.params,
            wildcard: rec.wildcard,
        }
    }
}

impl<T> Default for Router<T> {
    /// An empty router, as [`Router::new`] builds it.
    fn default() -> (r: Self)
        ensures
            r.wf(),
            r.spec_len() == 0,
            r.spec_endpoints() == Map::<usize, Endpoint<T>>::empty(),
            is_empty_node(r.spec_root()),
            static_only(r.spec_root()),
    {
        Router::new()
    }
}

/// A value that contains the recognition result of the router: the
/// matched route and innermost scope, if any, and the captured spans over
/// a copy of the recognized path.
pub struct Recognize<'r, T> {
    route_ep: Option<&'r Endpoint<T>>,
    scope_ep: Option<&'r Endpoint<T>>,
    path: Vec<u8>,
    params: Vec<(usize, usize)>,
    wildcard: Option<(usize, usize)>,
}

impl<'r, T> Recognize<'r, T> {
    /// The matched route's endpoint, for specification purposes.
    pub closed spec fn spec_route(self) -> Option<Endpoint<T>> {
        match self.route_ep {
            Some(e) => Some(*e),
            None => None,
        }
    }

    /// The innermost matched scope's endpoint, for specification purposes.
    pub closed spec fn spec_scope(self) -> Option<Endpoint<T>> {
        match self.scope_ep {
            Some(e) => Some(*e),
            None => None,
        }
    }

    /// The recognized path's bytes.
    pub closed spec fn spec_path(self) -> Seq<u8> {
        self.path@
    }

    /// The captured parameter spans.
    pub closed spec fn spec_params(self) -> Seq<(usize, usize)> {
        self.params@
    }

    /// The captured wildcard span.
    pub closed spec fn spec_wildcard(self) -> Option<(usize, usize)> {
        self.wildcard
    }

    /// Every captured span lies inside the path.
    #[verifier::type_invariant]
    spec fn inv(self) -> bool {
        &&& forall|k: int|
            0 <= k < self.params@.len() ==> (#[trigger] self.params@[k]).0 <= self.params@[k].1
                <= self.path@.len()
        &&& match self.wildcard {
            Some(w) => w.0 <= w.1 <= self.path@.len(),
            None => true,
        }
    }

    /// Returns the matched route and, when its pattern declared
    /// parameters or a wildcard, the captured parameter values.
    pub fn route(&self) -> (r: Option<(&Endpoint<T>, Option<Params>)>)
        ensures
            match r {
                Some(pair) => self.spec_route() is Some && *pair.0 == self.spec_route().unwrap()
                    && match pair.1 {
                    Some(p) => self.spec_route().unwrap().names is Some && p.spec_path()
                        == self.spec_path() && p.spec_names().names.deep_view()
                        == self.spec_route().unwrap().names.unwrap().names.deep_view()
                        && p.spec_names().has_wildcard
                        == self.spec_route().unwrap().names.unwrap().has_wildcard && p.spec_spans()
                        == self.spec_params() && p.spec_wildcard() == self.spec_wildcard(),
                    None => self.spec_route().unwrap().names is None,
                },
                None => self.spec_route() is None,
            },
    {
        proof {
            use_type_invariant(self);
        }
        match self.route_ep {
            Some(ep) => {
                let params = match &ep.names {
                    Some(ns) => Some(
                        Params::new(
                            vstd::slice::slice_to_vec(self.path.as_slice()),
                            ns.duplicate(),
                            vstd::slice::slice_to_vec(self.params.as_slice()),
                            self.wildcard,
                        ),
                    ),
                    None => None,
                };
                Some((ep, params))
            },
            None => None,
        }
    }

    /// Returns the innermost matched scope and, when its pattern declared
    /// parameters or a wildcard, the captured parameter values.
    pub fn scope(&self) -> (r: Option<(&Endpoint<T>, Option<Params>)>)
        ensures
            match r {
                Some(pair) => self.spec_scope() is Some && *pair.0 == self.spec_scope().unwrap()
                    && match pair.1 {
                    Some(p) => self.spec_scope().unwrap().names is Some && p.spec_path()
                        == self.spec_path() && p.spec_names().names.deep_view()
                        == self.spec_scope().unwrap().names.unwrap().names.deep_view()
                        && p.spec_names().has_wildcard
                        == self.spec_scope().unwrap().names.unwrap().has_wildcard && p.spec_spans()
                        == self.spec_params() && p.spec_wildcard() == self.spec_wildcard(),
                    None => self.spec_scope().unwrap().names is None,
                },
                None => self.spec_scope() is None,
            },
    {
        proof {
            use_type_invariant(self);
        }
        match self.scope_ep {
            Some(ep) => {
                let params = match &ep.names {
                    Some(ns) => Some(
                        Params::new(
                            vstd::slice::slice_to_vec(self.path.as_slice()),
                            ns.duplicate(),
                            vstd::slice::slice_to_vec(self.params.as_slice()),
                            self.wildcard,
                        ),
                    ),
                    None => None,
                };
                Some((ep, params))
            },
            None => None,
        }
    }
}

} // verus!
