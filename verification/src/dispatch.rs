//! Routing one request: from the bytes read off a connection to the route that handles it
//! and the request it is handed.
use vstd::prelude::*;

use crate::method::{method_name, ERouterMethod};
use crate::pattern::regex_named_captures;
use crate::request::{
    build_header_map, capture_pairs, captures_complete, last_pairs, pair_value, content_length,
    extract_body, header_entries, header_map_of, httparse_request, parameters_from_captures,
    parse_request_head, request_body, RequestHead, RequestHeadView,
};
use crate::router::{Route, Router, RouterView};

verus! {

/// The number of header slots a request is parsed with.
pub const HEADER_SLOTS: usize = 64;

/// A routed request, as its handler receives it.
///
/// `parameters` holds each path parameter once, in the order the names first appear, with
/// the value it has in the pattern's last match on the path.
#[derive(Debug)]
pub struct Request {
    pub method: String,
    pub body: Vec<u8>,
    pub parameters: Vec<(String, String)>,
    pub headers: http::HeaderMap,
    pub path: String,
}

/// What became of a request.
pub enum Resolution<'a, H> {
    /// The request could not be read: its head is malformed, lacks a method or a path, has
    /// a header that cannot be kept, announces more body than was read, or misses a path
    /// parameter of its route.
    Malformed,
    /// No route matches the request's method and path.
    NotFound,
    /// The route that handles the request, and the request.
    Found(&'a Route<H>, Request),
}

/// What a request's head and bytes give before routing.
pub struct PreparedRequest {
    pub method: Seq<char>,
    pub path: Seq<char>,
    pub body: Seq<u8>,
    pub headers: Map<Seq<char>, Seq<Seq<u8>>>,
}

/// The method, path, body and headers of a request, or `None` when one of them cannot be
/// had.
pub open spec fn prepare(head: RequestHeadView, buf: Seq<u8>) -> Option<PreparedRequest> {
    if head.method is Some && head.path is Some && request_body(head, buf) is Some && header_map_of(
        head.headers,
    ) is Some {
        Some(
            PreparedRequest {
                method: head.method->0,
                path: head.path->0,
                body: request_body(head, buf)->0,
                headers: header_map_of(head.headers)->0,
            },
        )
    } else {
        None
    }
}

/// Key `i` and method `m` are where the prepared request `p` is routed.
pub open spec fn routed_to<H>(router: RouterView<H>, p: PreparedRequest, i: int, m: ERouterMethod) -> bool {
    method_name(m) == p.method && router.is_selected(i, m, p.path)
}

/// The captures of the route for `m` under key `i` on the request path.
pub open spec fn route_captures<H>(router: RouterView<H>, p: PreparedRequest, i: int, m: ERouterMethod) -> Seq<Seq<Option<Seq<char>>>> {
    regex_named_captures(router.keys[i], p.path, router.routes[(router.keys[i], m)].parameters)
}

/// `r` is what routing the request with head `head`, read into `buf`, gives.
pub open spec fn resolves_to<'a, H>(
    router: RouterView<H>,
    head: RequestHeadView,
    buf: Seq<u8>,
    r: Resolution<'a, H>,
) -> bool {
    match prepare(head, buf) {
        None => r is Malformed,
        Some(p) => match r {
            Resolution::Malformed => exists|i: int, m: ERouterMethod|
                #[trigger] routed_to(router, p, i, m) && !captures_complete(
                    router.routes[(router.keys[i], m)].parameters,
                    route_captures(router, p, i, m),
                ),
            Resolution::NotFound => forall|i: int, m: ERouterMethod|
                method_name(m) == p.method ==> !#[trigger] router.is_candidate(i, m, p.path),
            Resolution::Found(route, request) => exists|i: int, m: ERouterMethod|
                {
                    &&& #[trigger] routed_to(router, p, i, m)
                    &&& route@ == router.routes[(router.keys[i], m)]
                    &&& captures_complete(route@.parameters, route_captures(router, p, i, m))
                    &&& request.method@ == p.method
                    &&& request.path@ == p.path
                    &&& request.body@ == p.body
                    &&& header_entries(request.headers) == p.headers
                    &&& request.parameters.deep_view() == last_pairs(
                        capture_pairs(route@.parameters, route_captures(router, p, i, m)),
                    )
                    &&& forall|a: int| 0 <= a < route@.parameters.len() ==> #[trigger] pair_value(
                        request.parameters.deep_view(),
                        route@.parameters[a],
                    ) is Some
                },
        },
    }
}


/// A request is routed one way only: two outcomes that both meet the routing contract for
/// the same router, head and bytes are the same kind of outcome, and when a route was found
/// they agree on the route and on every part of the request.
pub proof fn lemma_routing_deterministic<'a, 'b, H>(
    router: RouterView<H>,
    head: RequestHeadView,
    buf: Seq<u8>,
    r1: Resolution<'a, H>,
    r2: Resolution<'b, H>,
)
    requires
        resolves_to(router, head, buf, r1),
        resolves_to(router, head, buf, r2),
    ensures
        r1 is Malformed <==> r2 is Malformed,
        r1 is NotFound <==> r2 is NotFound,
        r1 is Found <==> r2 is Found,
        r1 matches Resolution::Found(route1, request1) ==> r2 matches Resolution::Found(route2, request2) && {
            &&& route1@ == route2@
            &&& request1.method@ == request2.method@
            &&& request1.path@ == request2.path@
            &&& request1.body@ == request2.body@
            &&& header_entries(request1.headers) == header_entries(request2.headers)
            &&& request1.parameters.deep_view() == request2.parameters.deep_view()
        },
{
    if let Some(p) = prepare(head, buf) {
        // the place a request is routed to is unique
        assert forall|i1: int, m1: ERouterMethod, i2: int, m2: ERouterMethod|
            routed_to(router, p, i1, m1) && routed_to(router, p, i2, m2) implies i1 == i2 && m1 == m2 by {
            crate::method::lemma_method_name_injective(m1, m2);
            router.lemma_selection_unique(m1, p.path, i1, i2);
        }
        assert forall|i: int, m: ERouterMethod| #[trigger] routed_to(router, p, i, m) implies router.is_candidate(i, m, p.path) && method_name(m) == p.method by {}
    }
}

impl<H> Router<H> {
    /// Routes a request whose head has been parsed into `head`, out of the bytes `buffer`.
    pub fn resolve_request<'a>(&'a self, head: RequestHead, buffer: &[u8]) -> (r: Resolution<'a, H>)
        requires
            head.headers.len() < 4096,
        ensures
            resolves_to(self.model(), head@, buffer@, r),
    {
        proof {
            use_type_invariant(self);
        }
        let ghost hv = head@;
        let announced = content_length(&head.headers);
        let RequestHead { body_offset, method, path, headers } = head;
        let method = match method {
            Some(m) => m,
            None => return Resolution::Malformed,
        };
        let path = match path {
            Some(p) => p,
            None => return Resolution::Malformed,
        };
        let body = match extract_body(body_offset, announced, buffer) {
            Some(b) => b,
            None => return Resolution::Malformed,
        };
        let header_map = match build_header_map(&headers) {
            Some(m) => m,
            None => return Resolution::Malformed,
        };
        let ghost p = prepare(hv, buffer@)->0;
        assert(prepare(hv, buffer@) is Some);
        let m = match ERouterMethod::from_name(method.as_str()) {
            Some(m) => m,
            None => return Resolution::NotFound,
        };
        let i = match self.select_route(m, path.as_str()) {
            Some(i) => i,
            None => {
                proof {
                    assert forall|j: int, m2: ERouterMethod| method_name(m2) == p.method implies !#[trigger] self.model().is_candidate(j, m2, p.path) by {
                        crate::method::lemma_method_name_injective(m, m2);
                    }
                }
                return Resolution::NotFound;
            },
        };
        proof {
            self.lemma_model_routes();
        }
        let route = match self.route_at(i, m) {
            Some(route) => route,
            None => return Resolution::NotFound,
        };
        let captures = self.pattern_at(i).named_captures(path.as_str(), &route.parameters);
        let parameters = match parameters_from_captures(&route.parameters, &captures) {
            Some(ps) => ps,
            None => {
                assert(routed_to(self.model(), p, i as int, m));
                return Resolution::Malformed;
            },
        };
        proof {
            let names = route@.parameters;
            let caps = captures.deep_view();
            assert(self.model().matches_of(p.path)[i as int]);
            assert(captures.len() > 0);
            let last = (caps.len() - 1) as int;
            assert(caps.drop_last().len() == last);
            assert forall|a: int| 0 <= a < names.len() implies #[trigger] pair_value(
                parameters.deep_view(),
                names[a],
            ) is Some by {
                let qs = capture_pairs(names, caps);
                let tail = Seq::new(names.len(), |j: int| (names[j], caps.last()[j]->Some_0));
                assert(qs == capture_pairs(names, caps.drop_last()) + tail);
                let idx = capture_pairs(names, caps.drop_last()).len() + a;
                assert(qs[idx] == tail[a]);
                crate::request::lemma_last_value_present(qs, names[a], idx);
                crate::request::lemma_last_pairs_value(qs, names[a]);
            }
        }
        let request = Request { method, body, parameters, headers: header_map, path };
        assert(routed_to(self.model(), p, i as int, m));
        Resolution::Found(route, request)
    }

    /// Routes the request read into `buffer`: parses its head with [`HEADER_SLOTS`] header
    /// slots, then routes it as [`Router::resolve_request`] does.
    pub fn route_request<'a>(&'a self, buffer: &[u8]) -> (r: Resolution<'a, H>)
        ensures
            match httparse_request(buffer@, HEADER_SLOTS as nat) {
                None => r is Malformed,
                Some(head) => resolves_to(self.model(), head, buffer@, r),
            },
    {
        proof {
            use_type_invariant(self);
        }
        match parse_request_head(buffer, HEADER_SLOTS) {
            None => Resolution::Malformed,
            Some(head) => self.resolve_request(head, buffer),
        }
    }
}

} // verus!
