//! Turning a handler's output into a response's string body.
use vstd::prelude::*;
use crate::deserializer::unprocessable;
use crate::error::Error;
use crate::handler::Json;

verus! {

/// A way to write a handler's output as a string body.
pub trait BodySerializer {
    type Item;

    /// Whether `r` is a result that writing `content` may give.
    spec fn encodes(content: Self::Item, r: core::result::Result<String, Error>) -> bool;

    fn serialize(content: Self::Item) -> (r: core::result::Result<String, Error>)
        ensures
            Self::encodes(content, r),
    ;
}

/// The JSON text that serde_json writes for this value.
pub uninterp spec fn json_text_of(v: serde_json::Value) -> Seq<char>;

/// Relies on serde_json::to_string: the text it writes depends on the value
/// alone, and it fails only on a failing `Serialize` impl or a map with
/// non-string keys, neither of which a JSON value has.
#[verifier::external_body]
fn json_write(value: &serde_json::Value) -> (r: core::result::Result<String, String>)
    ensures
        r is Ok,
        r is Ok ==> r->Ok_0@ == json_text_of(*value),
{
    serde_json::to_string(value).map_err(|e| e.to_string())
}

/// The output, a JSON value, written as serde_json writes it.
impl<T> BodySerializer for Json<T> {
    type Item = serde_json::Value;

    open spec fn encodes(content: serde_json::Value, r: core::result::Result<String, Error>) -> bool {
        r is Ok && r->Ok_0@ == json_text_of(content)
    }

    fn serialize(content: serde_json::Value) -> (r: core::result::Result<String, Error>) {
        unprocessable(json_write(&content))
    }
}

/// The output as it is.
impl BodySerializer for String {
    type Item = String;

    open spec fn encodes(content: String, r: core::result::Result<String, Error>) -> bool {
        r is Ok && r->Ok_0@ == content@
    }

    fn serialize(content: String) -> (r: core::result::Result<String, Error>) {
        Ok(content)
    }
}

/// No output: an empty body.
impl BodySerializer for () {
    type Item = ();

    open spec fn encodes(content: (), r: core::result::Result<String, Error>) -> bool {
        r is Ok && r->Ok_0@ == Seq::<char>::empty()
    }

    fn serialize(content: ()) -> (r: core::result::Result<String, Error>) {
        Ok(String::new())
    }
}

} // verus!
