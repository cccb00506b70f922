use yahf::deserializer::BodyDeserializer;
use yahf::error::Error;
use yahf::handler::{finish_output, prepare_input, Input, InputShape, Output, Prepared};
use yahf::middleware::{Action, Dispatch, RequestOutcome, ResponseOutcome, Route};
use yahf::request::{Method, Request};
use yahf::response::Response;
use yahf::router::Router;
use yahf::server::respond;

type Runner = fn(RequestOutcome) -> ResponseOutcome;
type Pre = fn(RequestOutcome) -> RequestOutcome;
type After = fn(ResponseOutcome) -> ResponseOutcome;

fn drive(route: &Route<Runner, Pre, After>, req: Request<String>) -> ResponseOutcome {
    let (mut d, mut action) = Dispatch::start(route.pre.len(), route.after.len(), req);
    loop {
        action = match action {
            Action::Pre { index, input } => d.pre_done((route.pre[index])(input)),
            Action::Handle { request } => d.response_done((route.runner)(Ok(request))),
            Action::After { index, input } => d.response_done((route.after[index])(input)),
            Action::Finish { outcome } => return outcome,
        };
    }
}

fn serve(router: &Router<Runner, Pre, After>, method: Method, path: &str, body: &str) -> Response<String> {
    let outcome = router
        .find_route(method, path)
        .map(|route| drive(route, Request::from_parts(method, path.to_string(), body.to_string())));
    respond(outcome)
}

fn encapsulate_string(r: RequestOutcome) -> ResponseOutcome {
    match prepare_input::<String>(InputShape::Body, false, r) {
        Prepared::Skip(e) => Err(e),
        Prepared::Call(input) => finish_output::<String>(input.map(|i| match i {
            Input::Body(s) => Output::Body(format!("[{}]", s)),
            _ => Output::Body(String::new()),
        })),
    }
}

fn void_string(r: RequestOutcome) -> ResponseOutcome {
    match prepare_input::<String>(InputShape::Nothing, false, r) {
        Prepared::Skip(e) => Err(e),
        Prepared::Call(_) => finish_output::<String>(Ok(Output::Body("1".to_string()))),
    }
}

fn const_a(_r: RequestOutcome) -> ResponseOutcome {
    Ok(Response::new("A".to_string()))
}

fn const_b(_r: RequestOutcome) -> ResponseOutcome {
    Ok(Response::new("B".to_string()))
}

fn pre_transform(req: RequestOutcome) -> RequestOutcome {
    req.map(|_| Request::new("PM1".into()))
}

fn pre_generate_error(_req: RequestOutcome) -> RequestOutcome {
    Err(Error::new("PM2".into(), 500))
}

fn pre_handle_error(req: RequestOutcome) -> RequestOutcome {
    Ok(req.unwrap_or(Request::new("PM3".into())))
}

fn after_transform(res: ResponseOutcome) -> ResponseOutcome {
    res.map(|_| Response::new("AM1".into()))
}

fn after_generate_error(_res: ResponseOutcome) -> ResponseOutcome {
    Err(Error::new("AM2".into(), 500))
}

fn after_handle_error(res: ResponseOutcome) -> ResponseOutcome {
    Ok(res.unwrap_or(Response::new("AM3".into())))
}

fn mark_a(req: RequestOutcome) -> RequestOutcome {
    req.map(|r| Request::new(format!("{}A", r.body)))
}

fn mark_b(req: RequestOutcome) -> RequestOutcome {
    req.map(|r| Request::new(format!("{}B", r.body)))
}

fn echo(r: RequestOutcome) -> ResponseOutcome {
    r.map(|q| Response::new(q.body))
}

fn with_steps(pre: &[Pre], after: &[After]) -> Router<Runner, Pre, After> {
    let mut router: Router<Runner, Pre, After> = Router::new();
    for p in pre {
        router = router.pre(*p);
    }
    for a in after {
        router = router.after(*a);
    }
    router.method(Method::GET, "/path/to", encapsulate_string)
}

#[test]
fn test_pre_transform() {
    let router = with_steps(&[pre_transform], &[]);
    assert_eq!(serve(&router, Method::GET, "/path/to", "Body").body, "[PM1]");
}

#[test]
fn test_pre_generate_error() {
    let router = with_steps(&[pre_transform, pre_generate_error], &[]);
    assert_eq!(serve(&router, Method::GET, "/path/to", "Body").body, "PM2");
}

#[test]
fn test_handle_pre_middleware_error() {
    let router = with_steps(&[pre_transform, pre_generate_error, pre_handle_error], &[]);
    assert_eq!(serve(&router, Method::GET, "/path/to", "Body").body, "[PM3]");
}

#[test]
fn test_after_transform() {
    let router = with_steps(&[pre_transform, pre_generate_error, pre_handle_error], &[after_transform]);
    assert_eq!(serve(&router, Method::GET, "/path/to", "Body").body, "AM1");
}

#[test]
fn test_after_generate_error() {
    let router = with_steps(
        &[pre_transform, pre_generate_error, pre_handle_error],
        &[after_transform, after_generate_error],
    );
    assert_eq!(serve(&router, Method::GET, "/path/to", "Body").body, "AM2");
}

#[test]
fn test_handle_after_error() {
    let router = with_steps(
        &[pre_transform, pre_generate_error, pre_handle_error],
        &[after_transform, after_generate_error, after_handle_error],
    );
    assert_eq!(serve(&router, Method::GET, "/path/to", "Body").body, "AM3");
}

#[test]
fn test_handle_pre_error_with_after_middleware() {
    let router = with_steps(&[pre_generate_error], &[after_handle_error]);
    assert_eq!(serve(&router, Method::GET, "/path/to", "Body").body, "AM3");
}

#[test]
fn test_insert_and_find_runner_void_string() {
    let methods = [
        Method::GET,
        Method::PUT,
        Method::DELETE,
        Method::POST,
        Method::TRACE,
        Method::OPTIONS,
        Method::CONNECT,
        Method::PATCH,
        Method::HEAD,
    ];
    for m in methods {
        let router: Router<Runner, Pre, After> = Router::new().method(m, "/path/to", void_string);
        assert!(router.has_route(m, "/path/to"));
        assert_eq!(serve(&router, m, "/path/to", "1").body, "1");
        for other in methods {
            if other != m {
                assert!(router.find_route(other, "/path/to").is_none());
            }
        }
    }
}

#[test]
fn all_registers_every_method() {
    let router: Router<Runner, Pre, After> = Router::new().all("/x", void_string);
    for m in [Method::GET, Method::HEAD, Method::PATCH, Method::CONNECT] {
        assert_eq!(serve(&router, m, "/x", "").body, "1");
    }
    assert_eq!(serve(&router, Method::GET, "/y", "").status, 404);
}

#[test]
fn merged_router_finds_parent_and_child_routes() {
    let parent: Router<Runner, Pre, After> = Router::new().method(Method::GET, "/a", const_a);
    let child: Router<Runner, Pre, After> = Router::new().method(Method::GET, "/b", const_b);
    let parent = parent.router(child);
    assert_eq!(serve(&parent, Method::GET, "/a", "").body, "A");
    assert_eq!(serve(&parent, Method::GET, "/b", "").body, "B");
    assert_eq!(serve(&parent, Method::GET, "/c", "").status, 404);
}

#[test]
fn merged_route_runs_parent_steps_first() {
    let parent: Router<Runner, Pre, After> = Router::new().pre(mark_a);
    let parent = parent.method(Method::GET, "/parent", echo);
    let child: Router<Runner, Pre, After> = Router::new();
    let child = child.pre(mark_b).method(Method::GET, "/child", echo);
    let merged = parent.router(child);
    assert_eq!(serve(&merged, Method::GET, "/child", "").body, "AB");
    assert_eq!(serve(&merged, Method::GET, "/parent", "").body, "A");
}

#[test]
fn steps_added_later_do_not_touch_registered_routes() {
    let router: Router<Runner, Pre, After> = Router::new().method(Method::GET, "/early", echo);
    let router = router.pre(mark_a).method(Method::GET, "/late", echo);
    assert_eq!(serve(&router, Method::GET, "/early", "").body, "");
    assert_eq!(serve(&router, Method::GET, "/late", "").body, "A");
}

#[test]
fn string_deserializer_keeps_the_body() {
    let r = String::deserialize(&"raw body".to_string());
    assert_eq!(r.unwrap(), "raw body");
}

#[test]
fn conflicting_routers_are_detected() {
    let parent: Router<Runner, Pre, After> = Router::new().method(Method::GET, "/a", const_a);
    let same_path_other_method: Router<Runner, Pre, After> = Router::new().method(Method::POST, "/a", const_b);
    assert!(!parent.conflicts_with(&same_path_other_method));
    let clash: Router<Runner, Pre, After> = Router::new().method(Method::GET, "/a", const_b);
    assert!(parent.conflicts_with(&clash));
}
