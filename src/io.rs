//! Plain carriers of a typed body and of an HTTP failure.
use vstd::prelude::*;

verus! {

/// A request body of type `ReqBody`.
#[derive(Debug)]
pub struct HttpRequest<ReqBody> {
    pub body: ReqBody,
}

/// A response body of type `ResBody`, if there is one.
#[derive(Debug)]
pub struct HttpResponse<ResBody> {
    pub body: Option<ResBody>,
}

/// A status code and a message.
#[derive(Debug)]
pub struct HttpError {
    pub _code: u32,
    pub _body: String,
}

/// A failure to read a body, or a failed request.
#[derive(Debug)]
pub enum Error {
    ParseBody(String),
    RequestError(HttpError),
}

} // verus!
