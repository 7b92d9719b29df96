//! A URL path router built on a compressed prefix tree.
//!
//! Patterns are byte strings beginning with `/`. A segment beginning with
//! `:` declares a named parameter that captures bytes up to the next `/`;
//! a `*` declares a trailing wildcard whose capture is anchored by a fixed
//! literal suffix (the "slug"). Patterns are registered once, up front, and
//! request paths are then recognized by a single read-only descent.

pub mod endpoint;
mod error;
pub mod insert;
pub mod laws;
pub mod param;
pub mod recognize;
pub mod router;
pub mod tree;

pub use crate::endpoint::{Endpoint, EndpointId};
pub use crate::error::{Error, ErrorKind};
pub use crate::param::{ParamNames, Params};
pub use crate::recognize::Recognized;
pub use crate::router::{Recognize, Router};
pub use crate::tree::Tree;
