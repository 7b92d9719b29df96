//! Declared parameter names and captured parameter values.
//!
//! A [`ParamNames`] is produced once per registered pattern: the parameter
//! names in pattern order, plus whether the pattern ended in a wildcard.
//! A [`Params`] pairs a recognized path with such a name list and the
//! captured spans, and resolves lookups by position or by name.

use vstd::prelude::*;
use vstd::string::StringSliceAdditionalSpecFns;

use crate::tree::WILDCARD_MARK;

verus! {

/// The first index of `t` in `ns`, if any.
pub open spec fn spec_position(ns: Seq<Seq<u8>>, t: Seq<u8>) -> Option<int>
    decreases ns.len(),
{
    if ns.len() == 0 {
        None
    } else if ns[0] == t {
        Some(0)
    } else {
        match spec_position(ns.skip(1), t) {
            Some(i) => Some(i + 1),
            None => None,
        }
    }
}

/// What `spec_position` returns is the first matching index.
pub proof fn lemma_spec_position(ns: Seq<Seq<u8>>, t: Seq<u8>)
    ensures
        match spec_position(ns, t) {
            Some(i) => 0 <= i < ns.len() && ns[i] == t && forall|j: int| 0 <= j < i ==> ns[j] != t,
            None => forall|j: int| 0 <= j < ns.len() ==> ns[j] != t,
        },
    decreases ns.len(),
{
    if ns.len() > 0 {
        lemma_spec_position(ns.skip(1), t);
        assert forall|j: int| 1 <= j < ns.len() implies ns.skip(1)[j - 1] == ns[j] by {}
    }
}

/// The ordered parameter names a registered pattern declared, and whether
/// the pattern contained a wildcard.
#[derive(Clone, Debug, Default)]
pub struct ParamNames {
    /// Declared names, in pattern order, as raw bytes.
    pub names: Vec<Vec<u8>>,
    /// Did the pattern contain a `*` wildcard?
    pub has_wildcard: bool,
}

impl ParamNames {
    /// Returns the position of the specified parameter: the first index of
    /// `name` in the declared list, if any.
    pub fn position(&self, name: &str) -> (r: Option<usize>)
        ensures
            match r {
                Some(i) => Some(i as int) == spec_position(
                    self.names.deep_view(),
                    name.spec_bytes(),
                ),
                None => spec_position(self.names.deep_view(), name.spec_bytes()) is None,
            },
    {
        let target: &[u8] = name.as_bytes();
        let ghost ns = self.names.deep_view();
        proof {
            lemma_spec_position(ns, name.spec_bytes());
        }
        let mut i: usize = 0;
        while i < self.names.len()
            invariant
                ns == self.names.deep_view(),
                i <= self.names@.len(),
                ns.len() == self.names@.len(),
                target@ == name.spec_bytes(),
                forall|j: int| 0 <= j < i ==> ns[j] != target@,
                match spec_position(ns, target@) {
                    Some(k) => 0 <= k < ns.len() && ns[k] == target@ && forall|j: int|
                        0 <= j < k ==> ns[j] != target@,
                    None => forall|j: int| 0 <= j < ns.len() ==> ns[j] != target@,
                },
            decreases self.names@.len() - i,
        {
            proof {
                assert(ns[i as int] == self.names@[i as int]@);
            }
            if crate::tree::bytes_eq(self.names[i].as_slice(), target) {
                return Some(i);
            }
            i = i + 1;
        }
        None
    }
}

impl ParamNames {
    /// An exact copy of this name list.
    pub fn duplicate(&self) -> (r: ParamNames)
        ensures
            r.names.deep_view() == self.names.deep_view(),
            r.has_wildcard == self.has_wildcard,
    {
        let mut names: Vec<Vec<u8>> = Vec::new();
        let mut i: usize = 0;
        while i < self.names.len()
            invariant
                i <= self.names@.len(),
                names@.len() == i,
                forall|j: int| 0 <= j < i ==> (#[trigger] names@[j])@ == self.names@[j]@,
            decreases self.names@.len() - i,
        {
            names.push(vstd::slice::slice_to_vec(self.names[i].as_slice()));
            i = i + 1;
        }
        proof {
            assert(names.deep_view() =~~= self.names.deep_view());
        }
        ParamNames { names, has_wildcard: self.has_wildcard }
    }
}

/// A set of captured parameter values from a recognized path: the path's
/// bytes, the declared names, the captured spans, and the wildcard span.
/// Lookups return the spanned byte slices of the path.
#[derive(Debug)]
pub struct Params {
    path: Vec<u8>,
    names: ParamNames,
    spans: Vec<(usize, usize)>,
    wildcard: Option<(usize, usize)>,
}

impl Params {
    /// The recognized path's bytes.
    pub closed spec fn spec_path(self) -> Seq<u8> {
        self.path@
    }

    /// The declared parameter names.
    pub closed spec fn spec_names(self) -> ParamNames {
        self.names
    }

    /// The captured spans, in pattern order.
    pub closed spec fn spec_spans(self) -> Seq<(usize, usize)> {
        self.spans@
    }

    /// The wildcard span, if one was captured.
    pub closed spec fn spec_wildcard(self) -> Option<(usize, usize)> {
        self.wildcard
    }

    /// Every captured span lies inside the path.
    #[verifier::type_invariant]
    spec fn inv(self) -> bool {
        &&& forall|k: int|
            0 <= k < self.spans@.len() ==> (#[trigger] self.spans@[k]).0 <= self.spans@[k].1
                <= self.path@.len()
        &&& match self.wildcard {
            Some(w) => w.0 <= w.1 <= self.path@.len(),
            None => true,
        }
    }

    /// Assemble a capture set. The spans must lie inside the path.
    pub(crate) fn new(
        path: Vec<u8>,
        names: ParamNames,
        spans: Vec<(usize, usize)>,
        wildcard: Option<(usize, usize)>,
    ) -> (r: Params)
        requires
            forall|k: int|
                0 <= k < spans@.len() ==> (#[trigger] spans@[k]).0 <= spans@[k].1 <= path@.len(),
            match wildcard {
                Some(w) => w.0 <= w.1 <= path@.len(),
                None => true,
            },
        ensures
            r.spec_path() == path@,
            r.spec_names() == names,
            r.spec_spans() == spans@,
            r.spec_wildcard() == wildcard,
    {
        Params { path, names, spans, wildcard }
    }

    /// Finds a parameter value by position: the bytes of the `i`-th
    /// captured span, or `None` when fewer spans were captured.
    pub fn get(&self, i: usize) -> (r: Option<&[u8]>)
        ensures
            match r {
                Some(s) => i < self.spec_spans().len() && s@ == self.spec_path().subrange(
                    self.spec_spans()[i as int].0 as int,
                    self.spec_spans()[i as int].1 as int,
                ),
                None => i >= self.spec_spans().len(),
            },
    {
        proof {
            use_type_invariant(self);
        }
        if i < self.spans.len() {
            let sp = self.spans[i];
            Some(vstd::slice::slice_subrange(self.path.as_slice(), sp.0, sp.1))
        } else {
            None
        }
    }

    /// Returns the value of the extracted wildcard parameter: the bytes of
    /// the wildcard span, provided the pattern declared a wildcard and one
    /// was captured.
    pub fn get_wildcard(&self) -> (r: Option<&[u8]>)
        ensures
            match r {
                Some(s) => self.spec_names().has_wildcard && match self.spec_wildcard() {
                    Some(w) => s@ == self.spec_path().subrange(w.0 as int, w.1 as int),
                    None => false,
                },
                None => !self.spec_names().has_wildcard || self.spec_wildcard() is None,
            },
    {
        proof {
            use_type_invariant(self);
        }
        if self.names.has_wildcard {
            match self.wildcard {
                Some(w) => Some(vstd::slice::slice_subrange(self.path.as_slice(), w.0, w.1)),
                None => None,
            }
        } else {
            None
        }
    }

    /// Finds a parameter value by name. The reserved name `*` resolves to
    /// the wildcard capture; any other name resolves through its first
    /// position in the declared list.
    pub fn name(&self, name: &str) -> (r: Option<&[u8]>)
        ensures
            ({
                let nm = name.spec_bytes();
                if nm == seq![WILDCARD_MARK] {
                    match r {
                        Some(s) => self.spec_names().has_wildcard && match self.spec_wildcard() {
                            Some(w) => s@ == self.spec_path().subrange(w.0 as int, w.1 as int),
                            None => false,
                        },
                        None => !self.spec_names().has_wildcard || self.spec_wildcard() is None,
                    }
                } else {
                    match spec_position(self.spec_names().names.deep_view(), nm) {
                        Some(i) => match r {
                            Some(s) => i < self.spec_spans().len() && s@
                                == self.spec_path().subrange(
                                self.spec_spans()[i].0 as int,
                                self.spec_spans()[i].1 as int,
                            ),
                            None => i >= self.spec_spans().len(),
                        },
                        None => r is None,
                    }
                }
            }),
    {
        let nb: &[u8] = name.as_bytes();
        if nb.len() == 1 && nb[0] == WILDCARD_MARK {
            proof {
                assert(name.spec_bytes() =~= seq![WILDCARD_MARK]);
            }
            self.get_wildcard()
        } else {
            proof {
                if name.spec_bytes() == seq![WILDCARD_MARK] {
                    assert(nb@.len() == 1 && nb@[0] == WILDCARD_MARK);
                }
            }
            match self.names.position(name) {
                Some(i) => self.get(i),
                None => None,
            }
        }
    }

    /// Hands the capture set back unchanged: it already owns its data.
    pub fn into_owned(self) -> (r: Params)
        ensures
            r == self,
    {
        self
    }
}

} // verus!
