//! The array wrapper: a sequence rendered as a single key whose value is
//! one externally sub-encoded JSON array document, instead of one key per
//! element.

use vstd::prelude::*;

use crate::error::{leaf_error, wrapped_error, Error, ErrorModel};
use crate::text::texts_model;
use serde_json::Error as SerdeJsonError;

verus! {

#[verifier::external_type_specification]
#[verifier::external_body]
pub struct ExJsonError(SerdeJsonError);

/// The JSON array document whose elements are the given strings.  The
/// text is a function of the strings alone; what it is on given strings
/// is known only to the sub-codec relied on below.
pub uninterp spec fn json_text_of(elems: Seq<Seq<char>>) -> Seq<char>;

/// What the sub-codec parses a text into when asked for an array of
/// strings: the element strings, or nothing when the text is not such a
/// document.
pub uninterp spec fn json_strings_of(text: Seq<char>) -> Option<Seq<Seq<char>>>;

/// The text of the failure the sub-codec reports for a text that is not
/// an array-of-strings document, a function of the text alone.
pub uninterp spec fn json_error_text_of(text: Seq<char>) -> Seq<char>;

/// Relies on `serde_json::to_string` for `Vec<String>`: the JSON text of
/// the array, a deterministic function of the strings; parsing that text
/// back as an array of strings yields the same strings.  Serializing a
/// vector of strings cannot fail: the only failure paths are a fallible
/// `Serialize` impl or a map with non-string keys, and `Vec<String>` has
/// neither.
#[verifier::external_body]
fn json_encode_strings(elems: &Vec<String>) -> (r: Result<String, SerdeJsonError>)
    ensures
        r is Ok,
        r matches Result::Ok(s) ==> s@ == json_text_of(texts_model(elems@)) && json_strings_of(s@)
            == Option::Some(texts_model(elems@)),
{
    serde_json::to_string(elems)
}

/// Relies on `serde_json::from_str` for `Vec<String>`: whether the text
/// parses, what it parses to, and the reported failure's `Display` text
/// are all functions of the text alone.
#[verifier::external_body]
fn json_decode_strings(text: &str) -> (r: Result<Vec<String>, String>)
    ensures
        match r {
            Result::Ok(v) => json_strings_of(text@) == Option::Some(texts_model(v@)),
            Result::Err(msg) => json_strings_of(text@) is None && msg@ == json_error_text_of(
                text@,
            ),
        },
{
    serde_json::from_str(text).map_err(|e: SerdeJsonError| e.to_string())
}

/// The whole error a failed array-document parse carries: the wrapper's
/// message around the sub-codec's own report.
pub open spec fn array_doc_error(text: Seq<char>) -> ErrorModel {
    wrapped_error("invalid array document"@, leaf_error(json_error_text_of(text)))
}

/// An opaque sequence whose wire form is one key holding a sub-encoded
/// JSON array of element texts.
#[derive(Debug, Clone, PartialEq, Eq)]
pub struct Array(pub Vec<String>);

impl Array {
    /// The element texts of this array.
    pub open spec fn model(self) -> Seq<Seq<char>> {
        texts_model(self.0@)
    }

    /// Encodes the inner sequence through the external sub-codec; the
    /// result is the whole value for the enclosing key.  The sub-codec
    /// cannot fail on an array of strings, so encoding always succeeds.
    pub fn serialize(&self) -> (r: Result<String, Error>)
        ensures
            r is Ok,
            r matches Result::Ok(s) ==> s@ == json_text_of(self.model()) && json_strings_of(s@)
                == Option::Some(self.model()),
    {
        match json_encode_strings(&self.0) {
            Result::Ok(s) => Result::Ok(s),
            Result::Err(_) => unreached(),
        }
    }

    /// Parses one sub-encoded array document back into the element
    /// texts.  A sub-codec failure is wrapped with its cause.
    pub fn deserialize(text: &str) -> (r: Result<Array, Error>)
        ensures
            match r {
                Result::Ok(a) => json_strings_of(text@) == Option::Some(a.model()),
                Result::Err(e) => json_strings_of(text@) is None && e.model() == array_doc_error(
                    text@,
                ),
            },
    {
        match json_decode_strings(text) {
            Result::Ok(v) => Result::Ok(Array(v)),
            Result::Err(msg) => {
                let inner = Error { message: msg, cause: Option::None };
                proof {
                    assert(inner.model() == leaf_error(json_error_text_of(text@)));
                }
                Result::Err(
                    Error::new("invalid array document", Option::Some(Box::new(inner))),
                )
            },
        }
    }
}

} // verus!
