//! The single error value threaded through routing, middleware and dispatch.
use vstd::prelude::*;
use crate::response::Response;

verus! {

/// Status code used for body deserialization and serialization failures.
pub const UNPROCESSABLE: u16 = 422;

/// The status of a response that could not carry an error's own code.
pub const INTERNAL: u16 = 500;

/// Whether a status code is one that an HTTP response can carry.
pub open spec fn valid_status(code: u16) -> bool {
    100 <= code <= 999
}

/// Relies on http::StatusCode::from_u16: it accepts exactly the codes from
/// 100 to 999, keeping the number, and its error reads "invalid status
/// code".
#[verifier::external_body]
fn status_code(code: u16) -> (r: core::result::Result<u16, String>)
    ensures
        match r {
            Ok(c) => valid_status(code) && c == code,
            Err(m) => !valid_status(code) && m@ == "invalid status code"@,
        },
{
    http::StatusCode::from_u16(code).map(|s| s.as_u16()).map_err(|e| e.to_string())
}

/// A failure: an HTTP status code and a message body.
#[derive(Debug)]
pub struct Error {
    body: String,
    code: u16,
}

impl Error {
    /// The message carried by the error.
    pub closed spec fn spec_body(&self) -> Seq<char> {
        self.body@
    }

    /// The status code carried by the error.
    pub closed spec fn spec_code(&self) -> u16 {
        self.code
    }

    pub fn new(body: String, code: u16) -> (r: Self)
        ensures
            r.spec_body() == body@,
            r.spec_code() == code,
    {
        Self { body, code }
    }

    pub fn body(&self) -> (r: &String)
        ensures
            r@ == self.spec_body(),
    {
        &self.body
    }

    pub fn code(&self) -> (r: &u16)
        ensures
            *r == self.spec_code(),
    {
        &self.code
    }

    /// The response that shows this error: its code as the status and its
    /// message as the body; a code no response can carry gives status 500
    /// with the message "invalid status code".
    pub fn into_response(self) -> (r: Response<String>)
        ensures
            valid_status(self.spec_code()) ==> r.status == self.spec_code() && r.body@
                == self.spec_body(),
            !valid_status(self.spec_code()) ==> r.status == INTERNAL && r.body@
                == "invalid status code"@,
            r.headers@.len() == 0,
    {
        match status_code(self.code) {
            Ok(status) => Response::from_parts(status, self.body),
            Err(m) => Response::from_parts(INTERNAL, m),
        }
    }
}

} // verus!
