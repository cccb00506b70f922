//! The inbound request as the core reads it: method, path and body.
use vstd::prelude::*;

verus! {

/// The HTTP methods that a router keeps a trie for.
#[derive(Clone, Copy, Debug, PartialEq, Eq, Structural)]
pub enum Method {
    GET,
    PUT,
    DELETE,
    POST,
    TRACE,
    OPTIONS,
    CONNECT,
    PATCH,
    HEAD,
}

/// A request with a body of type `T`; `headers` are name and value pairs in
/// the order they came.
#[derive(Debug)]
pub struct Request<T> {
    pub method: Method,
    pub path: String,
    pub headers: Vec<(String, String)>,
    pub body: T,
}

impl<T> Request<T> {
    /// A GET request to "/" with no headers and the given body.
    pub fn new(value: T) -> (r: Self)
        ensures
            r.method == Method::GET,
            r.path@ == seq!['/'],
            r.headers@ == Seq::<(String, String)>::empty(),
            r.body == value,
    {
        Request { method: Method::GET, path: slash(), headers: Vec::new(), body: value }
    }

    /// A request with no headers and the given method, path and body.
    pub fn from_parts(method: Method, path: String, body: T) -> (r: Self)
        ensures
            r.method == method,
            r.path == path,
            r.headers@ == Seq::<(String, String)>::empty(),
            r.body == body,
    {
        Request { method, path, headers: Vec::new(), body }
    }

    /// This request with the header `name: value` added after the others.
    pub fn header(self, name: String, value: String) -> (r: Self)
        ensures
            r.method == self.method,
            r.path == self.path,
            r.headers@ == self.headers@.push((name, value)),
            r.body == self.body,
    {
        let Request { method, path, mut headers, body } = self;
        headers.push((name, value));
        Request { method, path, headers, body }
    }

    pub fn headers(&self) -> (r: &Vec<(String, String)>)
        ensures
            *r == self.headers,
    {
        &self.headers
    }

    pub fn body(&self) -> (r: &T)
        ensures
            *r == self.body,
    {
        &self.body
    }

    /// Consumes the request, returning just the body.
    pub fn into_body(self) -> (r: T)
        ensures
            r == self.body,
    {
        self.body
    }

    /// Consumes the request, returning its method, path, headers and body.
    pub fn into_parts(self) -> (r: (Method, String, Vec<(String, String)>, T))
        ensures
            r.0 == self.method,
            r.1 == self.path,
            r.2 == self.headers,
            r.3 == self.body,
    {
        (self.method, self.path, self.headers, self.body)
    }

    /// The same request with its body mapped through `f`.
    pub fn map<U, F: FnOnce(T) -> U>(self, f: F) -> (r: Request<U>)
        requires
            f.requires((self.body,)),
        ensures
            r.method == self.method,
            r.path == self.path,
            r.headers == self.headers,
            f.ensures((self.body,), r.body),
    {
        let Request { method, path, headers, body } = self;
        Request { method, path, headers, body: f(body) }
    }
}

/// The path "/".
fn slash() -> (r: String)
    ensures
        r@ == seq!['/'],
{
    let s = "/";
    proof {
        reveal_strlit("/");
    }
    s.to_owned()
}

} // verus!
