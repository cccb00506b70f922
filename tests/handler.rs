use serde_json::Value;
use yahf::deserializer::{unprocessable, BodyDeserializer};
use yahf::error::Error;
use yahf::handler::{finish_output, prepare_input, Input, InputShape, Json, Output, Prepared};
use yahf::middleware::{Action, Dispatch, RequestOutcome, ResponseOutcome, Route};
use yahf::request::{Method, Request};
use yahf::response::Response;
use yahf::router::Router;
use yahf::serializer::BodySerializer;
use yahf::server::respond;

type Runner = fn(RequestOutcome) -> ResponseOutcome;
type Pre = fn(RequestOutcome) -> RequestOutcome;
type After = fn(ResponseOutcome) -> ResponseOutcome;

fn drive(route: &Route<Runner, Pre, After>, req: Request<String>) -> ResponseOutcome {
    let (mut d, mut action) = Dispatch::start(route.pre.len(), route.after.len(), req);
    loop {
        action = match action {
            Action::Pre { index, input } => d.pre_done((route.pre[index])(input)),
            Action::Handle { request } => d.response_done((route.runner)(Ok(request))),
            Action::After { index, input } => d.response_done((route.after[index])(input)),
            Action::Finish { outcome } => return outcome,
        };
    }
}

fn object(key: &str, value: Value) -> Value {
    let mut m = serde_json::Map::new();
    m.insert(key.to_string(), value);
    Value::Object(m)
}

fn field(v: &Value) -> String {
    v.get("field").and_then(|f| f.as_str()).unwrap_or("").to_string()
}

fn run_json(shape: InputShape, body: &str, f: fn(Input<Value>) -> Output<Value>) -> ResponseOutcome {
    match prepare_input::<Json<Value>>(shape, false, Ok(Request::new(body.to_string()))) {
        Prepared::Skip(e) => Err(e),
        Prepared::Call(input) => finish_output::<Json<Value>>(input.map(f)),
    }
}

fn hello(r: RequestOutcome) -> ResponseOutcome {
    match prepare_input::<String>(InputShape::Nothing, false, r) {
        Prepared::Skip(e) => Err(e),
        Prepared::Call(_) => finish_output::<String>(Ok(Output::Body("Hello world".to_string()))),
    }
}

fn first_computation(r: RequestOutcome) -> ResponseOutcome {
    match prepare_input::<Json<Value>>(InputShape::Body, false, r) {
        Prepared::Skip(e) => Err(e),
        Prepared::Call(input) => finish_output::<Json<Value>>(input.map(|i| match i {
            Input::Body(v) => {
                let n = v.get("value").and_then(|x| x.as_u64()).unwrap_or(0);
                Output::Body(object("value", Value::from(n + 1)))
            },
            _ => Output::Body(Value::Null),
        })),
    }
}

#[test]
fn hello_world_with_pass_through_serializer() {
    let router: Router<Runner, Pre, After> = Router::new().method(Method::GET, "/", hello);
    let route = router.find_route(Method::GET, "/").unwrap();
    let out = respond(Some(drive(route, Request::new(String::new()))));
    assert_eq!(out.status, 200);
    assert_eq!(out.body, "Hello world");
}

#[test]
fn json_computation_adds_one() {
    let router: Router<Runner, Pre, After> = Router::new().method(Method::GET, "/first", first_computation);
    let route = router.find_route(Method::GET, "/first").unwrap();
    let req = Request::from_parts(Method::GET, "/first".to_string(), "{\"value\":1}".to_string());
    let out = respond(Some(drive(route, req)));
    assert_eq!(out.status, 200);
    assert_eq!(out.body, "{\"value\":2}");
}

#[test]
fn test_simple_handler_implements_runner() {
    let b = run_json(InputShape::Request, "{\"field\":\"South of the border\"}", |i| match i {
        Input::Request(req) => Output::Response(Response::new(object(
            "field",
            Value::from(format!("{} - Ed Sheeran", field(&req.body))),
        ))),
        _ => Output::Body(Value::Null),
    });
    assert_eq!(b.unwrap().body.as_str(), "{\"field\":\"South of the border - Ed Sheeran\"}");
}

#[test]
fn test_unit_handler_implements_runner() {
    let b = run_json(InputShape::Nothing, "{\"field\":\"South of the border\"}", |_| {
        Output::Response(Response::new(object("field", Value::from("HOPE - NF"))))
    });
    assert_eq!(b.unwrap().body.as_str(), "{\"field\":\"HOPE - NF\"}");
}

#[test]
fn test_unit_handler_with_response_body_implements_runner() {
    let b = run_json(InputShape::Nothing, "{\"field\":\"South of the border\"}", |_| {
        Output::Body(object("field", Value::from("HOPE - NF")))
    });
    assert_eq!(b.unwrap().body.as_str(), "{\"field\":\"HOPE - NF\"}");
}

#[test]
fn test_simple_handler_with_body_implements_runner() {
    let b = run_json(InputShape::Body, "{\"field\":\"So Good\"}", |i| match i {
        Input::Body(v) => Output::Response(Response::new(object(
            "field",
            Value::from(format!("{} - Halsey", field(&v))),
        ))),
        _ => Output::Body(Value::Null),
    });
    assert_eq!(b.unwrap().body.as_str(), "{\"field\":\"So Good - Halsey\"}");
}

#[test]
fn test_handler_with_simple_body_on_input_and_output_runner() {
    let b = run_json(InputShape::Body, "{\"field\":\"Sharks\"}", |i| match i {
        Input::Body(v) => Output::Body(object("field", Value::from(format!("{} - Imagine Dragons", field(&v))))),
        _ => Output::Body(Value::Null),
    });
    assert_eq!(b.unwrap().body.as_str(), "{\"field\":\"Sharks - Imagine Dragons\"}");
}

#[test]
fn test_handler_with_simple_body_on_input_and_cf_output_runner() {
    let r = prepare_input::<Json<Value>>(InputShape::Body, false, Ok(Request::new("{\"field\":\"Venom\"}".to_string())));
    let b = match r {
        Prepared::Skip(e) => Err(e),
        Prepared::Call(input) => finish_output::<Json<Value>>(input.and_then(|i| match i {
            Input::Body(v) => Ok(Output::Body(object("field", Value::from(format!("{} - Eminem", field(&v)))))),
            _ => Err(Error::new("no body".to_string(), 500)),
        })),
    };
    assert_eq!(b.unwrap().body.as_str(), "{\"field\":\"Venom - Eminem\"}");
}

#[test]
fn malformed_json_is_a_422() {
    let b = run_json(InputShape::Body, "{not json", |_| Output::Body(Value::Null));
    let e = b.unwrap_err();
    assert_eq!(*e.code(), 422);
    assert!(!e.body().is_empty());
}

#[test]
fn json_deserializer_parses_and_serializer_writes() {
    let v = Json::<Value>::deserialize(&"{\"a\":[1,2]}".to_string()).unwrap();
    assert_eq!(v.get("a").unwrap().as_array().unwrap().len(), 2);
    let s = Json::<Value>::serialize(v).unwrap();
    assert_eq!(s, "{\"a\":[1,2]}");
}

#[test]
fn upstream_error_skips_a_plain_handler() {
    let r = prepare_input::<String>(InputShape::Body, false, Err(Error::new("up".to_string(), 409)));
    match r {
        Prepared::Skip(e) => assert_eq!(*e.code(), 409),
        _ => panic!("expected a skip"),
    }
}

#[test]
fn upstream_error_reaches_an_aware_handler() {
    let r = prepare_input::<String>(InputShape::Body, true, Err(Error::new("up".to_string(), 409)));
    match r {
        Prepared::Call(Err(e)) => assert_eq!(e.body(), "up"),
        _ => panic!("expected a call with the error"),
    }
}

#[test]
fn bad_body_reaches_an_aware_handler_as_422() {
    let r = prepare_input::<Json<Value>>(InputShape::Body, true, Ok(Request::new("[".to_string())));
    match r {
        Prepared::Call(Err(e)) => assert_eq!(*e.code(), 422),
        _ => panic!("expected a call with the error"),
    }
}

#[test]
fn request_shape_keeps_method_and_path() {
    let req = Request::from_parts(Method::POST, "/p/q".to_string(), "text".to_string())
        .header("x-id".to_string(), "7".to_string());
    match prepare_input::<String>(InputShape::Request, false, Ok(req)) {
        Prepared::Call(Ok(Input::Request(q))) => {
            assert_eq!(q.method, Method::POST);
            assert_eq!(q.path, "/p/q");
            assert_eq!(q.headers, vec![("x-id".to_string(), "7".to_string())]);
            assert_eq!(q.body, "text");
        },
        _ => panic!("expected the request"),
    }
}

#[test]
fn response_output_keeps_its_status() {
    let out = Response::from_parts(201, "made".to_string()).header("location".to_string(), "/m/1".to_string());
    let r = finish_output::<String>(Ok(Output::Response(out)));
    let r = r.unwrap();
    assert_eq!(r.status, 201);
    assert_eq!(r.headers, vec![("location".to_string(), "/m/1".to_string())]);
    assert_eq!(r.body, "made");
}

#[test]
fn handler_error_is_the_result() {
    let r = finish_output::<String>(Err(Error::new("nope".to_string(), 418)));
    assert_eq!(*r.unwrap_err().code(), 418);
}

#[test]
fn unit_serializer_writes_an_empty_body() {
    let r = finish_output::<()>(Ok(Output::Body(())));
    let r = r.unwrap();
    assert_eq!(r.status, 200);
    assert_eq!(r.body, "");
}

#[test]
fn codec_failure_becomes_422() {
    let r: Result<u8, Error> = unprocessable(Err("bad".to_string()));
    let e = r.unwrap_err();
    assert_eq!(*e.code(), 422);
    assert_eq!(e.body(), "bad");
    let ok: Result<u8, Error> = unprocessable(Ok(5));
    assert_eq!(ok.unwrap(), 5);
}

#[test]
fn input_into_body_takes_the_body() {
    assert_eq!(Input::Body(3u8).into_body(), Some(3));
    assert_eq!(Input::Request(Request::new(4u8)).into_body(), Some(4));
    assert_eq!(Input::<u8>::Nothing.into_body(), None);
}

#[test]
fn json_value_round_trips_through_the_codec() {
    let v = Json::<Value>::deserialize(&"{\"b\":true,\"a\":null}".to_string()).unwrap();
    assert_eq!(v.get("b"), Some(&Value::Bool(true)));
    let text = Json::<Value>::serialize(v).unwrap();
    assert_eq!(text, "{\"a\":null,\"b\":true}");
}
