//! The middleware chain.
//!
//! A middleware is given the request, the response under construction and the
//! parameters, and decides how the exchange goes on: it either invokes the
//! continuation, handing on what the next stage is to work with, or it stops
//! with a response of its own. Middleware run in the order in which they were
//! added; the handler runs last, and only if no middleware stopped.

use crate::request::Request;
use crate::response::Response;
use crate::router::Params;
use vstd::prelude::*;

verus! {

/// The decision of one middleware.
pub enum Flow {
    /// Go on: the rest of the chain runs on these values.
    Next(Request, Response, Option<Params>),
    /// Stop here: this response is final and no later stage runs.
    Done(Response),
}

/// `out` is a response that the chain can end with, when the stages from
/// `from` on are run on `req`, `res` and `params`.
///
/// Stage `from` is called on exactly these values. Where it decides to go on,
/// stage `from + 1` is called on what it handed on; where it stops, `out` is
/// its response. After the last middleware the handler is called, and `out`
/// is what it returns.
pub open spec fn chain_yields<M, H>(
    middlewares: Seq<M>,
    handler: H,
    from: int,
    req: Request,
    res: Response,
    params: Option<Params>,
    out: Response,
) -> bool where
    M: Fn(Request, Response, Option<Params>) -> Flow,
    H: Fn(Request, Response, Option<Params>) -> Response,

    decreases middlewares.len() - from,
{
    if from < 0 || from >= middlewares.len() {
        call_ensures(handler, (req, res, params), out)
    } else {
        exists|flow: Flow| #[trigger]
            call_ensures(middlewares[from], (req, res, params), flow) && match flow {
                Flow::Next(r, s, p) => chain_yields(middlewares, handler, from + 1, r, s, p, out),
                Flow::Done(s) => out == s,
            }
    }
}

/// `f` can be called on every request, response and parameters.
pub open spec fn total<F, R>(f: F) -> bool where F: Fn(Request, Response, Option<Params>) -> R {
    forall|r: Request, s: Response, p: Option<Params>| #[trigger] call_requires(f, (r, s, p))
}

/// Every middleware and the handler can be called on every input.
pub open spec fn chain_callable<M, H>(middlewares: Seq<M>, handler: H) -> bool where
    M: Fn(Request, Response, Option<Params>) -> Flow,
    H: Fn(Request, Response, Option<Params>) -> Response,
 {
    &&& forall|i: int| 0 <= i < middlewares.len() ==> total(#[trigger] middlewares[i])
    &&& total(handler)
}

/// Runs the middleware in order, then the handler, and returns the response
/// that the chain ends with. Each stage is called at most once.
pub fn run_middlewares<M, H>(
    req: Request,
    res: Response,
    params: Option<Params>,
    middlewares: &[M],
    handler: &H,
) -> (out: Response) where
    M: Fn(Request, Response, Option<Params>) -> Flow,
    H: Fn(Request, Response, Option<Params>) -> Response,

    requires
        chain_callable(middlewares@, *handler),
    ensures
        chain_yields(middlewares@, *handler, 0, req, res, params, out),
{
    let mut i: usize = 0;
    let mut cur_req = req;
    let mut cur_res = res;
    let mut cur_params = params;
    while i < middlewares.len()
        invariant
            i <= middlewares@.len(),
            chain_callable(middlewares@, *handler),
            forall|out: Response|
                chain_yields(middlewares@, *handler, i as int, cur_req, cur_res, cur_params, out)
                    ==> chain_yields(middlewares@, *handler, 0, req, res, params, out),
        decreases middlewares@.len() - i,
    {
        let ghost given = (cur_req, cur_res, cur_params);
        let flow = (middlewares[i])(cur_req, cur_res, cur_params);
        assert(call_ensures(middlewares@[i as int], given, flow));
        match flow {
            Flow::Next(r, s, p) => {
                cur_req = r;
                cur_res = s;
                cur_params = p;
                i = i + 1;
            },
            Flow::Done(s) => {
                return s;
            },
        }
    }
    handler(cur_req, cur_res, cur_params)
}

/// With middleware `a` then `b` and handler `h`, where `a` goes on from the
/// input and `b` goes on from whatever it is given: `a` is called on the
/// input, `b` on what `a` handed on, `h` on what `b` handed on, and the chain
/// ends with what `h` returns.
pub proof fn lemma_chain_in_order<M, H>(
    a: M,
    b: M,
    h: H,
    req: Request,
    res: Response,
    params: Option<Params>,
    out: Response,
) where
    M: Fn(Request, Response, Option<Params>) -> Flow,
    H: Fn(Request, Response, Option<Params>) -> Response,

    requires
        chain_yields(seq![a, b], h, 0, req, res, params, out),
        forall|f: Flow| #[trigger] call_ensures(a, (req, res, params), f) ==> f is Next,
        forall|r: Request, s: Response, p: Option<Params>, f: Flow| #[trigger]
            call_ensures(b, (r, s, p), f) ==> f is Next,
    ensures
        exists|
            req_a: Request,
            res_a: Response,
            par_a: Option<Params>,
            req_b: Request,
            res_b: Response,
            par_b: Option<Params>,
        |
            {
                &&& #[trigger] call_ensures(a, (req, res, params), Flow::Next(req_a, res_a, par_a))
                &&& #[trigger] call_ensures(b, (req_a, res_a, par_a), Flow::Next(req_b, res_b, par_b))
                &&& call_ensures(h, (req_b, res_b, par_b), out)
            },
{
    let mws = seq![a, b];
    assert(mws[0] == a && mws[1] == b);
    let fa = choose|flow: Flow| #[trigger]
        call_ensures(mws[0], (req, res, params), flow) && match flow {
            Flow::Next(r, s, p) => chain_yields(mws, h, 1, r, s, p, out),
            Flow::Done(s) => out == s,
        };
    match fa {
        Flow::Next(req_a, res_a, par_a) => {
            let fb = choose|flow: Flow| #[trigger]
                call_ensures(mws[1], (req_a, res_a, par_a), flow) && match flow {
                    Flow::Next(r, s, p) => chain_yields(mws, h, 2, r, s, p, out),
                    Flow::Done(s) => out == s,
                };
            match fb {
                Flow::Next(req_b, res_b, par_b) => {
                    assert(call_ensures(a, (req, res, params), Flow::Next(req_a, res_a, par_a)));
                    assert(call_ensures(b, (req_a, res_a, par_a), Flow::Next(req_b, res_b, par_b)));
                    assert(call_ensures(h, (req_b, res_b, par_b), out));
                },
                Flow::Done(_) => {},
            }
        },
        Flow::Done(_) => {},
    }
}

/// Where the first middleware stops on the input, the chain ends with one of
/// its responses and with no other, whatever the later middleware and the
/// handler are: none of them is called.
pub proof fn lemma_chain_short_circuit<M, H>(
    middlewares: Seq<M>,
    h: H,
    req: Request,
    res: Response,
    params: Option<Params>,
    out: Response,
) where
    M: Fn(Request, Response, Option<Params>) -> Flow,
    H: Fn(Request, Response, Option<Params>) -> Response,

    requires
        middlewares.len() > 0,
        forall|f: Flow| #[trigger] call_ensures(middlewares[0], (req, res, params), f) ==> f is Done,
    ensures
        chain_yields(middlewares, h, 0, req, res, params, out) <==> call_ensures(
            middlewares[0],
            (req, res, params),
            Flow::Done(out),
        ),
{
    if chain_yields(middlewares, h, 0, req, res, params, out) {
        let fa = choose|flow: Flow| #[trigger]
            call_ensures(middlewares[0], (req, res, params), flow) && match flow {
                Flow::Next(r, s, p) => chain_yields(middlewares, h, 1, r, s, p, out),
                Flow::Done(s) => out == s,
            };
        assert(fa is Done);
    }
    if call_ensures(middlewares[0], (req, res, params), Flow::Done(out)) {
        assert(chain_yields(middlewares, h, 0, req, res, params, out));
    }
}

} // verus!
