//! Endpoints: what the router stores for each registered pattern.

use vstd::prelude::*;

use crate::param::ParamNames;

verus! {

/// The identifier of an [`Endpoint`], handed out by registration in the
/// order patterns were added, starting at zero.
#[derive(Copy, Clone, Debug, PartialEq, Eq, Hash, Structural)]
pub struct EndpointId(pub usize);

/// An endpoint in a router: the registered pattern's text, the parameter
/// names it declared (if any), and the caller's data.
#[derive(Debug)]
pub struct Endpoint<T> {
    /// The endpoint's identifier.
    pub id: EndpointId,
    /// The pattern text as registered.
    pub path: String,
    /// The parameter names the pattern declared, pattern order; `None`
    /// when it declared neither parameters nor a wildcard.
    pub names: Option<ParamNames>,
    /// The caller's data.
    pub data: T,
}

impl<T> Endpoint<T> {
    /// Returns the identifier associated with this endpoint.
    pub fn id(&self) -> (r: EndpointId)
        ensures
            r == self.id,
    {
        self.id
    }

    /// Returns the original path of this endpoint.
    pub fn path(&self) -> (r: &String)
        ensures
            r == self.path,
    {
        &self.path
    }

    /// Returns a reference to the data associated with this endpoint.
    pub fn data(&self) -> (r: &T)
        ensures
            r == self.data,
    {
        &self.data
    }

    /// Returns a mutable reference to the data associated with this
    /// endpoint.
    pub fn data_mut(&mut self) -> (r: &mut T)
        ensures
            *r == old(self).data,
            final(self).data == *final(r),
            final(self).id == old(self).id,
            final(self).path == old(self).path,
            final(self).names == old(self).names,
    {
        &mut self.data
    }
}

} // verus!
