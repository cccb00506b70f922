//! The outbound response as the core builds it: a status code and a body.
use vstd::prelude::*;

verus! {

/// The status of a response built from a body alone.
pub const OK_STATUS: u16 = 200;

/// A response with a body of type `T`; `headers` are name and value pairs
/// in the order they are to be sent.
#[derive(Debug)]
pub struct Response<T> {
    pub status: u16,
    pub headers: Vec<(String, String)>,
    pub body: T,
}

impl<T> Response<T> {
    /// A response with status 200, no headers and the given body.
    pub fn new(value: T) -> (r: Self)
        ensures
            r.status == OK_STATUS,
            r.headers@ == Seq::<(String, String)>::empty(),
            r.body == value,
    {
        Response { status: OK_STATUS, headers: Vec::new(), body: value }
    }

    /// A response with no headers and the given status and body.
    pub fn from_parts(status: u16, body: T) -> (r: Self)
        ensures
            r.status == status,
            r.headers@ == Seq::<(String, String)>::empty(),
            r.body == body,
    {
        Response { status, headers: Vec::new(), body }
    }

    /// This response with the header `name: value` added after the others.
    pub fn header(self, name: String, value: String) -> (r: Self)
        ensures
            r.status == self.status,
            r.headers@ == self.headers@.push((name, value)),
            r.body == self.body,
    {
        let Response { status, mut headers, body } = self;
        headers.push((name, value));
        Response { status, headers, body }
    }

    pub fn headers(&self) -> (r: &Vec<(String, String)>)
        ensures
            *r == self.headers,
    {
        &self.headers
    }

    pub fn body(&self) -> (r: &T)
        ensures
            *r == self.body,
    {
        &self.body
    }

    pub fn status(&self) -> (r: u16)
        ensures
            r == self.status,
    {
        self.status
    }

    /// Consumes the response, returning just the body.
    pub fn into_body(self) -> (r: T)
        ensures
            r == self.body,
    {
        self.body
    }

    /// Consumes the response, returning its status, headers and body.
    pub fn into_parts(self) -> (r: (u16, Vec<(String, String)>, T))
        ensures
            r.0 == self.status,
            r.1 == self.headers,
            r.2 == self.body,
    {
        (self.status, self.headers, self.body)
    }

    /// The same response with its body mapped through `f`.
    pub fn map<U, F: FnOnce(T) -> U>(self, f: F) -> (r: Response<U>)
        requires
            f.requires((self.body,)),
        ensures
            r.status == self.status,
            r.headers == self.headers,
            f.ensures((self.body,), r.body),
    {
        let Response { status, headers, body } = self;
        Response { status, headers, body: f(body) }
    }
}

} // verus!
