//! What a request turns into at the boundary of the core.
use vstd::prelude::*;
use crate::error::{valid_status, INTERNAL};
use crate::middleware::ResponseOutcome;
use crate::response::Response;

verus! {

/// The status of a request that no route matches.
pub const NOT_FOUND: u16 = 404;

/// The response sent for a request: 404 with no headers and an empty body
/// when no route matched (`None`), the route's response, or the response
/// (without headers) that shows the route's error.
pub fn respond(outcome: Option<ResponseOutcome>) -> (r: Response<String>)
    ensures
        match outcome {
            None => r.status == NOT_FOUND && r.headers@.len() == 0 && r.body@ == Seq::<char>::empty(),
            Some(Ok(resp)) => r == resp,
            Some(Err(e)) => r.headers@.len() == 0 && if valid_status(e.spec_code()) {
                r.status == e.spec_code() && r.body@ == e.spec_body()
            } else {
                r.status == INTERNAL && r.body@ == "invalid status code"@
            },
        },
{
    match outcome {
        None => Response::from_parts(NOT_FOUND, String::new()),
        Some(Ok(resp)) => resp,
        Some(Err(e)) => e.into_response(),
    }
}

} // verus!
