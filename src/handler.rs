//! Handler dispatch: the adapters between a route's raw request and the
//! handler's typed input, and between the handler's typed output and the
//! route's raw response.
use vstd::prelude::*;
use crate::deserializer::BodyDeserializer;
use crate::error::Error;
use crate::middleware::{RequestOutcome, ResponseOutcome};
use crate::request::Request;
use crate::response::Response;
use crate::serializer::BodySerializer;

verus! {

/// The JSON codec. The core reads and writes bodies as serde_json values;
/// `T` names the type a caller turns such a value into.
pub struct Json<T> {
    marker: core::marker::PhantomData<T>,
}

impl<T> Json<T> {
    pub fn new() -> (r: Self) {
        Json { marker: core::marker::PhantomData }
    }
}

} // verus!

verus! {

/// What a handler takes from the request.
#[derive(Clone, Copy, Debug, PartialEq, Eq, Structural)]
pub enum InputShape {
    /// Nothing: the body is not read.
    Nothing,
    /// The decoded body.
    Body,
    /// The decoded body with the request's method, path and headers.
    Request,
}

/// A handler's input.
#[derive(Debug)]
pub enum Input<T> {
    Nothing,
    Body(T),
    Request(Request<T>),
}

impl<T> Input<T> {
    /// The decoded body, whatever came with it; `None` for an input without
    /// one.
    pub fn into_body(self) -> (r: Option<T>)
        ensures
            r == match self {
                Input::Nothing => None,
                Input::Body(v) => Some(v),
                Input::Request(q) => Some(q.body),
            },
    {
        match self {
            Input::Nothing => None,
            Input::Body(v) => Some(v),
            Input::Request(q) => Some(q.body),
        }
    }
}

/// A handler's output: a body, or a body with its status and headers.
#[derive(Debug)]
pub enum Output<T> {
    Body(T),
    Response(Response<T>),
}

/// Whether and how to call the handler.
#[derive(Debug)]
pub enum Prepared<T> {
    /// Call it with this input, or with this error when it takes errors.
    Call(core::result::Result<Input<T>, Error>),
    /// Do not call it: this error is the route's result.
    Skip(Error),
}

/// `r` is how a handler that takes `shape` (and errors too, when `aware`)
/// is to be called on `incoming`, its body read with `D`.
pub open spec fn prepares<D: BodyDeserializer>(
    shape: InputShape,
    aware: bool,
    incoming: RequestOutcome,
    r: Prepared<D::Item>,
) -> bool {
    match incoming {
        Err(e) => if aware {
            r == Prepared::<D::Item>::Call(Err(e))
        } else {
            r == Prepared::<D::Item>::Skip(e)
        },
        Ok(req) => match shape {
            InputShape::Nothing => r == Prepared::<D::Item>::Call(Ok(Input::Nothing)),
            InputShape::Body => match r {
                Prepared::Call(Ok(Input::Body(v))) => D::decodes(req.body@, Ok(v)),
                Prepared::Call(Err(e)) => aware && D::decodes(req.body@, Err(e)),
                Prepared::Skip(e) => !aware && D::decodes(req.body@, Err(e)),
                _ => false,
            },
            InputShape::Request => match r {
                Prepared::Call(Ok(Input::Request(q))) => q.method == req.method && q.path == req.path
                    && q.headers == req.headers && D::decodes(req.body@, Ok(q.body)),
                Prepared::Call(Err(e)) => aware && D::decodes(req.body@, Err(e)),
                Prepared::Skip(e) => !aware && D::decodes(req.body@, Err(e)),
                _ => false,
            },
        },
    }
}

/// Decides how to call a handler on what reaches it: an error goes through
/// untouched unless the handler takes errors; otherwise the body is read
/// with `D`, and a failure to read it is handled as that error would be.
pub fn prepare_input<D: BodyDeserializer>(shape: InputShape, aware: bool, incoming: RequestOutcome) -> (r:
    Prepared<D::Item>)
    ensures
        prepares::<D>(shape, aware, incoming, r),
{
    match incoming {
        Err(e) => if aware {
            Prepared::Call(Err(e))
        } else {
            Prepared::Skip(e)
        },
        Ok(req) => match shape {
            InputShape::Nothing => Prepared::Call(Ok(Input::Nothing)),
            InputShape::Body => match D::deserialize(&req.body) {
                Ok(v) => Prepared::Call(Ok(Input::Body(v))),
                Err(e) => if aware {
                    Prepared::Call(Err(e))
                } else {
                    Prepared::Skip(e)
                },
            },
            InputShape::Request => {
                let Request { method, path, headers, body } = req;
                match D::deserialize(&body) {
                    Ok(v) => Prepared::Call(Ok(Input::Request(Request { method, path, headers, body: v }))),
                    Err(e) => if aware {
                        Prepared::Call(Err(e))
                    } else {
                        Prepared::Skip(e)
                    },
                }
            },
        },
    }
}

/// `r` is the route's result when the handler returned `out`, written
/// with `Sz`.
pub open spec fn finishes<Sz: BodySerializer>(
    out: core::result::Result<Output<Sz::Item>, Error>,
    r: ResponseOutcome,
) -> bool {
    match out {
        Err(e) => r == Err::<Response<String>, Error>(e),
        Ok(Output::Body(v)) => match r {
            Ok(resp) => resp.status == crate::response::OK_STATUS && resp.headers@.len() == 0
                && Sz::encodes(v, Ok(resp.body)),
            Err(e) => Sz::encodes(v, Err(e)),
        },
        Ok(Output::Response(p)) => match r {
            Ok(resp) => resp.status == p.status && resp.headers == p.headers && Sz::encodes(
                p.body,
                Ok(resp.body),
            ),
            Err(e) => Sz::encodes(p.body, Err(e)),
        },
    }
}

/// Turns a handler's output into the route's result: the body is written
/// with `Sz`, keeping the status and headers the handler chose (200 and no
/// headers for a bare body);
/// an error the handler returned, or a failure to write, is the result.
pub fn finish_output<Sz: BodySerializer>(out: core::result::Result<Output<Sz::Item>, Error>) -> (r:
    ResponseOutcome)
    ensures
        finishes::<Sz>(out, r),
{
    match out {
        Err(e) => Err(e),
        Ok(Output::Body(v)) => match Sz::serialize(v) {
            Ok(s) => Ok(Response::new(s)),
            Err(e) => Err(e),
        },
        Ok(Output::Response(p)) => {
            let Response { status, headers, body } = p;
            match Sz::serialize(body) {
                Ok(s) => Ok(Response { status, headers, body: s }),
                Err(e) => Err(e),
            }
        },
    }
}

} // verus!
