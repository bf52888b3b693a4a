//! The application: a route table, a middleware list, and the dispatch of one
//! request through both.

use crate::chain::chain_yields;
use crate::chain::total;
use crate::chain::run_middlewares;
use crate::chain::Flow;
use crate::codec::decode;
use crate::codec::encode;
use crate::codec::utf8_lossy;
use crate::request::decode_text;
use crate::request::parse_request;
use crate::request::Request;
use crate::response::sent;
use crate::response::wire_text;
use crate::response::Response;
use crate::response::ResponseView;
use crate::router::lemma_first_match;
use crate::router::lemma_select_in_range;
use crate::router::match_route;
use crate::router::params_of;
use crate::router::route_matches;
use crate::router::segments;
use crate::router::select;
use crate::router::Params;
use crate::router::Route;
use crate::router::RouteView;
use vstd::prelude::*;
use vstd::utf8::encode_utf8;

verus! {

/// A response that was made from nothing but a status and a body.
pub open spec fn plain(status: u16, body: Seq<char>) -> ResponseView {
    sent(ResponseView { status, headers: Seq::empty(), body: Seq::empty() }, body)
}

/// `out` is a response that the dispatch of `req` can end with.
///
/// Where no route accepts the request, that is the plain 404. Else the chain
/// is run with the handler of the selected route, on the request, a fresh
/// response and the parameters that the route's pattern binds.
pub open spec fn dispatch_yields<M, H>(
    routes: Seq<Route<H>>,
    middlewares: Seq<M>,
    req: Request,
    out: ResponseView,
) -> bool where
    M: Fn(Request, Response, Option<Params>) -> Flow,
    H: Fn(Request, Response, Option<Params>) -> Response,
 {
    match select(routes, req.method@, req.path@) {
        None => out == plain(404, "Not Found"@),
        Some(i) => exists|res: Response, params: Option<Params>, last: Response|
            {
                &&& res@ == (ResponseView { status: 200, headers: Seq::empty(), body: Seq::empty() })
                &&& params_of(params, segments(routes[i]@.pattern), segments(req.path@))
                &&& #[trigger] chain_yields(middlewares, routes[i]@.handler, 0, req, res, params, last)
                &&& last@ == out
            },
    }
}

/// `out` is a response that the exchange started by `text` can end with: the
/// plain 400 where the text is no request, else what the dispatch of the
/// request yields.
pub open spec fn exchange_yields<M, H>(
    routes: Seq<Route<H>>,
    middlewares: Seq<M>,
    text: Seq<char>,
    out: ResponseView,
) -> bool where
    M: Fn(Request, Response, Option<Params>) -> Flow,
    H: Fn(Request, Response, Option<Params>) -> Response,
 {
    match parse_request(text) {
        Err(_) => out == plain(400, "Bad Request"@),
        Ok(parsed) => exists|req: Request| #[trigger]
            dispatch_yields(routes, middlewares, req, out) && req@ == parsed,
    }
}

/// A request that no route accepts is answered by the plain 404 and by
/// nothing else, whatever the middleware are: none of them runs.
pub proof fn lemma_unmatched_is_not_found<M, H>(
    routes: Seq<Route<H>>,
    middlewares: Seq<M>,
    req: Request,
    out: ResponseView,
) where
    M: Fn(Request, Response, Option<Params>) -> Flow,
    H: Fn(Request, Response, Option<Params>) -> Response,

    requires
        forall|i: int|
            0 <= i < routes.len() ==> !route_matches(#[trigger] routes[i], req.method@, req.path@),
    ensures
        dispatch_yields(routes, middlewares, req, out) <==> out == plain(404, "Not Found"@),
{
    lemma_first_match(routes, req.method@, req.path@, 0);
}

/// The application: routes in registration order, and middleware in the
/// order in which they run.
pub struct MiniExpress<M, H> where
    M: Fn(Request, Response, Option<Params>) -> Flow,
    H: Fn(Request, Response, Option<Params>) -> Response,
 {
    routes: Vec<Route<H>>,
    middlewares: Vec<M>,
}

impl<M, H> MiniExpress<M, H> where
    M: Fn(Request, Response, Option<Params>) -> Flow,
    H: Fn(Request, Response, Option<Params>) -> Response,
 {
    /// The registered routes, in registration order.
    pub closed spec fn routes(&self) -> Seq<Route<H>> {
        self.routes@
    }

    /// The middleware, in the order in which they run.
    pub closed spec fn middlewares(&self) -> Seq<M> {
        self.middlewares@
    }

    /// Every middleware and every handler can be called on every input.
    #[verifier::type_invariant]
    pub closed spec fn wf(&self) -> bool {
        &&& forall|i: int| 0 <= i < self.middlewares@.len() ==> total(#[trigger] self.middlewares@[i])
        &&& forall|i: int| 0 <= i < self.routes@.len() ==> total((#[trigger] self.routes@[i])@.handler)
    }

    /// An application without routes and without middleware.
    pub fn new() -> (app: Self)
        ensures
            app.routes().len() == 0,
            app.middlewares().len() == 0,
    {
        MiniExpress { routes: Vec::new(), middlewares: Vec::new() }
    }

    /// Adds `mw` as the last middleware.
    pub fn use_middleware(&mut self, mw: M)
        requires
            total(mw),
        ensures
            final(self).middlewares() == old(self).middlewares().push(mw),
            final(self).routes() == old(self).routes(),
    {
        proof {
            use_type_invariant(&*self);
        }
        let ghost before = self.middlewares@;
        let mut list: Vec<M> = Vec::new();
        std::mem::swap(&mut self.middlewares, &mut list);
        list.push(mw);
        assert forall|i: int| 0 <= i < list@.len() implies total(#[trigger] list@[i]) by {
            if i < before.len() {
                assert(list@[i] == before[i]);
            }
        }
        std::mem::swap(&mut self.middlewares, &mut list);
    }

    /// Registers `handler` for `method` on the pattern `path`, after all
    /// routes registered so far.
    pub fn register(&mut self, method: &str, path: &str, handler: H)
        requires
            total(handler),
        ensures
            final(self).routes().len() == old(self).routes().len() + 1,
            final(self).routes().take(old(self).routes().len() as int) == old(self).routes(),
            final(self).routes().last()@ == (RouteView { method: method@, pattern: path@, handler }),
            final(self).middlewares() == old(self).middlewares(),
    {
        proof {
            use_type_invariant(&*self);
        }
        let ghost before = self.routes@;
        let route = Route::new(method, path, handler);
        let mut list: Vec<Route<H>> = Vec::new();
        std::mem::swap(&mut self.routes, &mut list);
        list.push(route);
        assert(list@.take(before.len() as int) =~= before);
        assert forall|i: int| 0 <= i < list@.len() implies total((#[trigger] list@[i])@.handler) by {
            if i < before.len() {
                assert(list@[i] == before[i]);
            }
        }
        std::mem::swap(&mut self.routes, &mut list);
    }

    /// Registers `handler` for `GET` on the pattern `path`.
    pub fn get(&mut self, path: &str, handler: H)
        requires
            total(handler),
        ensures
            final(self).routes().len() == old(self).routes().len() + 1,
            final(self).routes().take(old(self).routes().len() as int) == old(self).routes(),
            final(self).routes().last()@ == (RouteView { method: "GET"@, pattern: path@, handler }),
            final(self).middlewares() == old(self).middlewares(),
    {
        self.register("GET", path, handler);
    }

    /// Registers `handler` for `POST` on the pattern `path`.
    pub fn post(&mut self, path: &str, handler: H)
        requires
            total(handler),
        ensures
            final(self).routes().len() == old(self).routes().len() + 1,
            final(self).routes().take(old(self).routes().len() as int) == old(self).routes(),
            final(self).routes().last()@ == (RouteView { method: "POST"@, pattern: path@, handler }),
            final(self).middlewares() == old(self).middlewares(),
    {
        self.register("POST", path, handler);
    }

    /// Dispatches one request: selects the route, runs the chain, and returns
    /// the response; the plain 404 where no route accepts the request.
    pub fn dispatch(&self, req: Request) -> (out: Response)
        ensures
            dispatch_yields(self.routes(), self.middlewares(), req, out@),
    {
        proof {
            use_type_invariant(self);
        }
        match match_route(req.method.as_str(), req.path.as_str(), self.routes.as_slice()) {
            Some((handler, params)) => {
                let res = Response::new();
                let ghost i = select(self.routes(), req.method@, req.path@)->0;
                proof {
                    lemma_select_in_range(self.routes(), req.method@, req.path@);
                }
                let out = run_middlewares(req, res, params, self.middlewares.as_slice(), handler);
                assert(chain_yields(
                    self.middlewares(),
                    self.routes()[i]@.handler,
                    0,
                    req,
                    res,
                    params,
                    out,
                ));
                out
            },
            None => {
                let mut res = Response::new();
                res.status(404).send("Not Found");
                res
            },
        }
    }

    /// Answers the request that `text` holds: the plain 400 where it holds
    /// none, else what [`MiniExpress::dispatch`] returns.
    pub fn respond_text(&self, text: &str) -> (out: Response)
        ensures
            exchange_yields(self.routes(), self.middlewares(), text@, out@),
    {
        match decode_text(text) {
            Ok(req) => {
                let out = self.dispatch(req);
                assert(dispatch_yields(self.routes(), self.middlewares(), req, out@) && req@
                    == parse_request(text@)->Ok_0);
                out
            },
            Err(_) => {
                let mut res = Response::new();
                res.status(400).send("Bad Request");
                res
            },
        }
    }

    /// Answers one connection: reads the request from the bytes received and
    /// returns the bytes to send back.
    pub fn respond(&self, raw: &[u8]) -> (wire: Vec<u8>)
        ensures
            exists|out: ResponseView| #[trigger]
                exchange_yields(self.routes(), self.middlewares(), utf8_lossy(raw@), out) && wire@
                    == encode_utf8(wire_text(out)),
    {
        match decode(raw) {
            Ok(req) => {
                let out = self.dispatch(req);
                assert(dispatch_yields(self.routes(), self.middlewares(), req, out@) && req@
                    == parse_request(utf8_lossy(raw@))->Ok_0);
                assert(exchange_yields(self.routes(), self.middlewares(), utf8_lossy(raw@), out@));
                encode(&out)
            },
            Err(_) => {
                let mut res = Response::new();
                res.status(400).send("Bad Request");
                assert(exchange_yields(self.routes(), self.middlewares(), utf8_lossy(raw@), res@));
                encode(&res)
            },
        }
    }
}

} // verus!
