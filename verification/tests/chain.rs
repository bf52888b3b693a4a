use mini_express::run_middlewares;
use mini_express::Flow;
use mini_express::Params;
use mini_express::Request;
use mini_express::Response;
use std::cell::RefCell;
use std::rc::Rc;

type Mw = Box<dyn Fn(Request, Response, Option<Params>) -> Flow>;
type Handler = Box<dyn Fn(Request, Response, Option<Params>) -> Response>;

fn request() -> Request {
    Request { method: "GET".to_string(), path: "/".to_string(), body: String::new() }
}

fn passing(name: &'static str, log: &Rc<RefCell<Vec<&'static str>>>) -> Mw {
    let log = log.clone();
    Box::new(move |req, res, params| {
        log.borrow_mut().push(name);
        Flow::Next(req, res, params)
    })
}

fn stopping(name: &'static str, code: u16, log: &Rc<RefCell<Vec<&'static str>>>) -> Mw {
    let log = log.clone();
    Box::new(move |_req, mut res, _params| {
        log.borrow_mut().push(name);
        res.status(code).send(name);
        Flow::Done(res)
    })
}

fn handler(log: &Rc<RefCell<Vec<&'static str>>>) -> Handler {
    let log = log.clone();
    Box::new(move |_req, mut res, _params| {
        log.borrow_mut().push("H");
        res.send("handled");
        res
    })
}

#[test]
fn stages_run_in_order_then_the_handler() {
    let log = Rc::new(RefCell::new(Vec::new()));
    let mws = vec![passing("A", &log), passing("B", &log)];
    let h = handler(&log);
    let out = run_middlewares(request(), Response::new(), None, &mws, &h);
    assert_eq!(*log.borrow(), vec!["A", "B", "H"]);
    assert_eq!(out.body(), "handled");
    assert_eq!(out.status_code(), 200);
}

#[test]
fn first_middleware_stops_the_chain() {
    let log = Rc::new(RefCell::new(Vec::new()));
    let mws = vec![stopping("A", 401, &log), passing("B", &log)];
    let h = handler(&log);
    let out = run_middlewares(request(), Response::new(), None, &mws, &h);
    assert_eq!(*log.borrow(), vec!["A"]);
    assert_eq!(out.status_code(), 401);
    assert_eq!(out.body(), "A");
}

#[test]
fn second_middleware_stops_the_chain() {
    let log = Rc::new(RefCell::new(Vec::new()));
    let mws = vec![passing("A", &log), stopping("B", 403, &log), passing("C", &log)];
    let h = handler(&log);
    let out = run_middlewares(request(), Response::new(), None, &mws, &h);
    assert_eq!(*log.borrow(), vec!["A", "B"]);
    assert_eq!(out.status_code(), 403);
    assert_eq!(out.body(), "B");
}

#[test]
fn empty_chain_runs_the_handler() {
    let log = Rc::new(RefCell::new(Vec::new()));
    let mws: Vec<Mw> = Vec::new();
    let h = handler(&log);
    let out = run_middlewares(request(), Response::new(), None, &mws, &h);
    assert_eq!(*log.borrow(), vec!["H"]);
    assert_eq!(out.body(), "handled");
}

#[test]
fn each_stage_runs_once() {
    let log = Rc::new(RefCell::new(Vec::new()));
    let mws = vec![passing("A", &log), passing("A", &log), passing("B", &log)];
    let h = handler(&log);
    run_middlewares(request(), Response::new(), None, &mws, &h);
    assert_eq!(*log.borrow(), vec!["A", "A", "B", "H"]);
}

#[test]
fn later_stages_see_what_earlier_ones_handed_on() {
    let rewrite: Mw = Box::new(|mut req, mut res, _params| {
        req.path = "/rewritten".to_string();
        res.header("X-Stage", "one");
        let mut p = Params::new();
        p.set("who", "mw");
        Flow::Next(req, res, Some(p))
    });
    let check: Mw = Box::new(|req, mut res, params| {
        assert_eq!(req.path, "/rewritten");
        assert_eq!(res.headers().get("X-Stage"), Some("one"));
        res.header("X-Stage", "two");
        Flow::Next(req, res, params)
    });
    let h: Handler = Box::new(|req, mut res, params| {
        let who = params.unwrap().get("who").unwrap().to_string();
        res.send(&format!("{} {} {}", req.method, req.path, who));
        res
    });
    let mws = vec![rewrite, check];
    let out = run_middlewares(request(), Response::new(), None, &mws, &h);
    assert_eq!(out.body(), "GET /rewritten mw");
    assert_eq!(out.headers().get("X-Stage"), Some("two"));
}

#[test]
fn handler_gets_the_given_values_when_there_is_no_middleware() {
    let mws: Vec<Mw> = Vec::new();
    let h: Handler = Box::new(|req, mut res, params| {
        let id = params.unwrap().get("id").unwrap().to_string();
        res.send(&format!("{}:{}:{}", req.path, req.body, id));
        res
    });
    let mut p = Params::new();
    p.set("id", "42");
    let req = Request { method: "GET".to_string(), path: "/u".to_string(), body: "b".to_string() };
    let mut res = Response::new();
    res.status(201);
    let out = run_middlewares(req, res, Some(p), &mws, &h);
    assert_eq!(out.body(), "/u:b:42");
    assert_eq!(out.status_code(), 201);
}
