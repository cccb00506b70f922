use std::cell::RefCell;

use yahf::error::Error;
use yahf::middleware::{Action, Dispatch, MiddlewareFactory, RequestOutcome, ResponseOutcome, Route};
use yahf::request::Request;
use yahf::response::Response;

fn drive<R, P, A>(route: &Route<R, P, A>, req: Request<String>) -> ResponseOutcome
where
    R: Fn(Request<String>) -> ResponseOutcome,
    P: Fn(RequestOutcome) -> RequestOutcome + Copy,
    A: Fn(ResponseOutcome) -> ResponseOutcome + Copy,
{
    let (mut d, mut action) = Dispatch::start(route.pre.len(), route.after.len(), req);
    loop {
        action = match action {
            Action::Pre { index, input } => d.pre_done((route.pre[index])(input)),
            Action::Handle { request } => d.response_done((route.runner)(request)),
            Action::After { index, input } => d.response_done((route.after[index])(input)),
            Action::Finish { outcome } => return outcome,
        };
    }
}

type PreFn<'a> = &'a dyn Fn(RequestOutcome) -> RequestOutcome;
type AfterFn<'a> = &'a dyn Fn(ResponseOutcome) -> ResponseOutcome;

#[test]
fn steps_run_in_order_around_the_handler() {
    let log = RefCell::new(Vec::<&str>::new());
    let p1 = |r: RequestOutcome| {
        log.borrow_mut().push("first");
        r
    };
    let p2 = |r: RequestOutcome| {
        log.borrow_mut().push("second");
        r
    };
    let a1 = |r: ResponseOutcome| {
        log.borrow_mut().push("after");
        r
    };
    let handler = |req: Request<String>| {
        log.borrow_mut().push("handler");
        Ok(Response::new(req.body))
    };
    let factory: MiddlewareFactory<PreFn, AfterFn> = MiddlewareFactory::new();
    let factory = factory.pre(&p1).pre(&p2).after(&a1);
    let route = factory.build(Route::new(handler));
    let out = drive(&route, Request::new("x".to_string()));
    assert_eq!(out.unwrap().body, "x");
    assert_eq!(*log.borrow(), vec!["first", "second", "handler", "after"]);
}

#[test]
fn short_circuit_skips_the_handler_but_not_the_after_steps() {
    let log = RefCell::new(Vec::<String>::new());
    let p1 = |_r: RequestOutcome| {
        log.borrow_mut().push("first".to_string());
        Err(Error::new("stop".to_string(), 401))
    };
    let p2 = |r: RequestOutcome| {
        log.borrow_mut().push(format!("second saw ok: {}", r.is_ok()));
        r
    };
    let a1 = |r: ResponseOutcome| {
        log.borrow_mut().push("after".to_string());
        r
    };
    let a2 = |r: ResponseOutcome| {
        log.borrow_mut().push("last".to_string());
        r
    };
    let handler = |_req: Request<String>| {
        log.borrow_mut().push("handler".to_string());
        Ok(Response::new("handled".to_string()))
    };
    let factory: MiddlewareFactory<PreFn, AfterFn> = MiddlewareFactory::new();
    let route = factory.pre(&p1).pre(&p2).after(&a1).after(&a2).build(Route::new(handler));
    let out = drive(&route, Request::new("x".to_string()));
    let e = out.unwrap_err();
    assert_eq!(*e.code(), 401);
    assert_eq!(e.body(), "stop");
    assert_eq!(*log.borrow(), vec!["first", "second saw ok: false", "after", "last"]);
}

#[test]
fn recovering_after_step_fixes_any_error() {
    let recover = |r: ResponseOutcome| match r {
        Ok(x) => Ok(x),
        Err(_) => Ok(Response::new("fixed".to_string())),
    };
    let fail_pre = |_r: RequestOutcome| Err(Error::new("pre".to_string(), 500));
    let pass_pre = |r: RequestOutcome| r;
    let fail_after = |_r: ResponseOutcome| Err(Error::new("after".to_string(), 500));
    let ok_handler = |_req: Request<String>| Ok(Response::new("fine".to_string()));
    let bad_handler = |_req: Request<String>| Err(Error::new("handler".to_string(), 500));

    let f: MiddlewareFactory<PreFn, AfterFn> = MiddlewareFactory::new();
    let from_pre = f.pre(&fail_pre).after(&recover).build(Route::new(ok_handler));
    assert_eq!(drive(&from_pre, Request::new(String::new())).unwrap().body, "fixed");

    let f: MiddlewareFactory<PreFn, AfterFn> = MiddlewareFactory::new();
    let from_handler = f.pre(&pass_pre).after(&recover).build(Route::new(bad_handler));
    assert_eq!(drive(&from_handler, Request::new(String::new())).unwrap().body, "fixed");

    let f: MiddlewareFactory<PreFn, AfterFn> = MiddlewareFactory::new();
    let from_after = f.after(&fail_after).after(&recover).build(Route::new(ok_handler));
    assert_eq!(drive(&from_after, Request::new(String::new())).unwrap().body, "fixed");
}

#[test]
fn blocking_pre_step_keeps_the_handler_from_running() {
    let calls = RefCell::new(0u32);
    let block = |_r: RequestOutcome| Err(Error::new("blocked".to_string(), 403));
    let handler = |_req: Request<String>| {
        *calls.borrow_mut() += 1;
        Ok(Response::new("ran".to_string()))
    };
    let f: MiddlewareFactory<PreFn, AfterFn> = MiddlewareFactory::new();
    let route = f.pre(&block).build(Route::new(handler));
    let out = yahf::server::respond(Some(drive(&route, Request::new("body".to_string()))));
    assert_eq!(out.status, 403);
    assert_eq!(out.body, "blocked");
    assert_eq!(*calls.borrow(), 0);
}

#[test]
fn no_steps_goes_straight_to_the_handler() {
    let handler = |req: Request<String>| Ok(Response::new(format!("<{}>", req.body)));
    let f: MiddlewareFactory<PreFn, AfterFn> = MiddlewareFactory::new();
    let route = f.build(Route::new(handler));
    assert_eq!(drive(&route, Request::new("b".to_string())).unwrap().body, "<b>");
}

#[test]
fn factory_copy_is_independent() {
    let p = |r: RequestOutcome| r;
    let a = |r: ResponseOutcome| r;
    let f: MiddlewareFactory<PreFn, AfterFn> = MiddlewareFactory::new();
    let f = f.pre(&p);
    let g = f.duplicate().after(&a);
    let route_f = f.build(Route::new(0u8));
    let route_g = g.build(Route::new(1u8));
    assert_eq!(route_f.pre.len(), 1);
    assert_eq!(route_f.after.len(), 0);
    assert_eq!(route_g.pre.len(), 1);
    assert_eq!(route_g.after.len(), 1);
}

#[test]
fn dispatch_reports_what_it_awaits() {
    let (mut d, a) = Dispatch::start(1, 1, Request::new(String::new()));
    assert!(d.awaits_request());
    assert!(matches!(a, Action::Pre { index: 0, .. }));
    let a = d.pre_done(Ok(Request::new("r".to_string())));
    assert!(matches!(a, Action::Handle { .. }));
    assert!(d.awaits_response());
    let a = d.response_done(Ok(Response::new("h".to_string())));
    assert!(matches!(a, Action::After { index: 0, .. }));
    let a = d.response_done(Err(Error::new("late".to_string(), 500)));
    match a {
        Action::Finish { outcome } => assert_eq!(outcome.unwrap_err().body(), "late"),
        _ => panic!("expected the finish"),
    }
    assert!(!d.awaits_request());
    assert!(!d.awaits_response());
}
