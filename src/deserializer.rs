//! Turning a request's string body into the value a handler takes.
use vstd::prelude::*;
use crate::error::{Error, UNPROCESSABLE};
use crate::handler::Json;

verus! {

/// A way to read a handler's input out of a string body.
pub trait BodyDeserializer {
    type Item;

    /// Whether `r` is a result that reading `content` may give.
    spec fn decodes(content: Seq<char>, r: core::result::Result<Self::Item, Error>) -> bool;

    fn deserialize(content: &String) -> (r: core::result::Result<Self::Item, Error>)
        ensures
            Self::decodes(content@, r),
    ;
}

/// The body as it is.
impl BodyDeserializer for String {
    type Item = String;

    open spec fn decodes(content: Seq<char>, r: core::result::Result<String, Error>) -> bool {
        r is Ok && r->Ok_0@ == content
    }

    fn deserialize(content: &String) -> (r: core::result::Result<String, Error>) {
        Ok(content.clone())
    }
}

/// A codec failure as an error: status 422, with the codec's message as
/// its body.
pub fn unprocessable<T>(r: core::result::Result<T, String>) -> (out: core::result::Result<T, Error>)
    ensures
        match r {
            Ok(v) => out == Ok::<T, Error>(v),
            Err(m) => out is Err && out->Err_0.spec_code() == UNPROCESSABLE && out->Err_0.spec_body()
                == m@,
        },
{
    match r {
        Ok(v) => Ok(v),
        Err(m) => Err(Error::new(m, UNPROCESSABLE)),
    }
}

/// A JSON value, as serde_json holds it.
#[verifier::external_type_specification]
#[verifier::external_body]
pub struct ExValue(serde_json::Value);

/// What serde_json makes of this text: the JSON value it denotes, or the
/// message of the error when it is not JSON.
pub uninterp spec fn json_parsed(s: Seq<char>) -> core::result::Result<serde_json::Value, Seq<char>>;

/// Relies on serde_json::from_str: the value parsed, or the message of the
/// error when the text does not parse, depends on the text alone.
#[verifier::external_body]
fn json_parse(s: &str) -> (r: core::result::Result<serde_json::Value, String>)
    ensures
        match r {
            Ok(v) => json_parsed(s@) == Ok::<serde_json::Value, Seq<char>>(v),
            Err(m) => json_parsed(s@) == Err::<serde_json::Value, Seq<char>>(m@),
        },
{
    serde_json::from_str::<serde_json::Value>(s).map_err(|e| e.to_string())
}

/// The body parsed as the JSON value it denotes; a parse failure is a 422
/// error with serde_json's message.
impl<T> BodyDeserializer for Json<T> {
    type Item = serde_json::Value;

    open spec fn decodes(content: Seq<char>, r: core::result::Result<serde_json::Value, Error>) -> bool {
        match r {
            Ok(v) => json_parsed(content) == Ok::<serde_json::Value, Seq<char>>(v),
            Err(e) => e.spec_code() == UNPROCESSABLE && json_parsed(content) == Err::<
                serde_json::Value,
                Seq<char>,
            >(e.spec_body()),
        }
    }

    fn deserialize(content: &String) -> (r: core::result::Result<serde_json::Value, Error>) {
        unprocessable(json_parse(content.as_str()))
    }
}

} // verus!
