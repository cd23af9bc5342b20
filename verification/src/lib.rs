//! A bidirectional codec between flat `key=value&key=value` wire text and
//! structured in-memory values: records with named fields, optional
//! fields, nested records flattened into one namespace, repeated-key
//! sequences, and array-wrapper sequences carried as one sub-encoded
//! document.

pub mod array;
pub mod decode;
pub mod encode;
pub mod error;
pub mod fieldmap;
pub mod laws;
pub mod scalar;
pub mod text;
pub mod value;

pub use array::Array;
pub use decode::{from_str, Deserializer};
pub use encode::{to_string, Serializer};
pub use value::{Shape, Value};

use vstd::prelude::*;

verus! {

/// A wrapper marking a value as extracted from the query component of a
/// request; the framework adapter around this crate decodes the raw query
/// text and hands the result over in one of these.
#[derive(Debug, PartialEq, Eq)]
pub struct Query<T>(pub T);

impl<T> Query<T> {
    /// Hands the wrapped value back.
    pub fn into_inner(self) -> (r: T)
        ensures
            r == self.0,
    {
        self.0
    }
}

} // verus!
