use vstd::prelude::*;

use crate::text::{chars_equal, chars_of};

verus! {

/// The request methods a route can be registered for.
#[derive(Clone, Copy, Debug, PartialEq, Eq, Structural)]
pub enum ERouterMethod {
    CONNECT,
    DELETE,
    GET,
    HEAD,
    OPTIONS,
    PATCH,
    POST,
    PUT,
    TRACE,
}

/// The name under which a method appears on the request line.
pub open spec fn method_name(m: ERouterMethod) -> Seq<char> {
    match m {
        ERouterMethod::CONNECT => "CONNECT"@,
        ERouterMethod::DELETE => "DELETE"@,
        ERouterMethod::GET => "GET"@,
        ERouterMethod::HEAD => "HEAD"@,
        ERouterMethod::OPTIONS => "OPTIONS"@,
        ERouterMethod::PATCH => "PATCH"@,
        ERouterMethod::POST => "POST"@,
        ERouterMethod::PUT => "PUT"@,
        ERouterMethod::TRACE => "TRACE"@,
    }
}

impl ERouterMethod {
    /// The request-line name of this method, e.g. `"GET"`.
    pub fn as_str(&self) -> (r: &'static str)
        ensures
            r@ == method_name(*self),
    {
        match self {
            ERouterMethod::CONNECT => "CONNECT",
            ERouterMethod::DELETE => "DELETE",
            ERouterMethod::GET => "GET",
            ERouterMethod::HEAD => "HEAD",
            ERouterMethod::OPTIONS => "OPTIONS",
            ERouterMethod::PATCH => "PATCH",
            ERouterMethod::POST => "POST",
            ERouterMethod::PUT => "PUT",
            ERouterMethod::TRACE => "TRACE",
        }
    }

    /// Every method, in declaration order.
    pub fn as_slice() -> (r: [ERouterMethod; 9])
        ensures
            r@ == all_methods(),
    {
        [
            ERouterMethod::CONNECT,
            ERouterMethod::DELETE,
            ERouterMethod::GET,
            ERouterMethod::HEAD,
            ERouterMethod::OPTIONS,
            ERouterMethod::PATCH,
            ERouterMethod::POST,
            ERouterMethod::PUT,
            ERouterMethod::TRACE,
        ]
    }

    /// The method whose request-line name is exactly `name`, if any.
    pub fn from_name(name: &str) -> (r: Option<ERouterMethod>)
        ensures
            r matches Some(m) ==> method_name(m) == name@,
            r is None ==> forall|m: ERouterMethod| method_name(m) != name@,
    {
        let wanted = chars_of(name);
        let all = ERouterMethod::as_slice();
        let mut i: usize = 0;
        while i < 9
            invariant
                i <= 9,
                all@ == all_methods(),
                wanted@ == name@,
                forall|j: int| 0 <= j < i ==> method_name(#[trigger] all_methods()[j]) != name@,
            decreases 9 - i,
        {
            let m = all[i];
            let candidate = chars_of(m.as_str());
            if chars_equal(&candidate, &wanted) {
                return Some(m);
            }
            i = i + 1;
        }
        proof {
            assert forall|m: ERouterMethod| method_name(m) != name@ by {
                lemma_all_methods_lists(m);
                let k = choose|k: int| 0 <= k < 9 && all_methods()[k] == m;
                assert(method_name(all_methods()[k]) != name@);
            }
        }
        None
    }
}

/// The position of a method among [`all_methods`].
pub open spec fn method_index(m: ERouterMethod) -> int {
    match m {
        ERouterMethod::CONNECT => 0,
        ERouterMethod::DELETE => 1,
        ERouterMethod::GET => 2,
        ERouterMethod::HEAD => 3,
        ERouterMethod::OPTIONS => 4,
        ERouterMethod::PATCH => 5,
        ERouterMethod::POST => 6,
        ERouterMethod::PUT => 7,
        ERouterMethod::TRACE => 8,
    }
}

impl ERouterMethod {
    /// The position of this method among [`all_methods`].
    pub fn index(&self) -> (r: usize)
        ensures
            r == method_index(*self),
            r < 9,
            all_methods()[r as int] == *self,
    {
        match self {
            ERouterMethod::CONNECT => 0,
            ERouterMethod::DELETE => 1,
            ERouterMethod::GET => 2,
            ERouterMethod::HEAD => 3,
            ERouterMethod::OPTIONS => 4,
            ERouterMethod::PATCH => 5,
            ERouterMethod::POST => 6,
            ERouterMethod::PUT => 7,
            ERouterMethod::TRACE => 8,
        }
    }
}

/// The nine methods in declaration order.
pub open spec fn all_methods() -> Seq<ERouterMethod> {
    seq![
        ERouterMethod::CONNECT,
        ERouterMethod::DELETE,
        ERouterMethod::GET,
        ERouterMethod::HEAD,
        ERouterMethod::OPTIONS,
        ERouterMethod::PATCH,
        ERouterMethod::POST,
        ERouterMethod::PUT,
        ERouterMethod::TRACE,
    ]
}

/// Every method appears in `all_methods`.
pub proof fn lemma_all_methods_lists(m: ERouterMethod)
    ensures
        exists|k: int| 0 <= k < 9 && all_methods()[k] == m,
{
    match m {
        ERouterMethod::CONNECT => assert(all_methods()[0] == m),
        ERouterMethod::DELETE => assert(all_methods()[1] == m),
        ERouterMethod::GET => assert(all_methods()[2] == m),
        ERouterMethod::HEAD => assert(all_methods()[3] == m),
        ERouterMethod::OPTIONS => assert(all_methods()[4] == m),
        ERouterMethod::PATCH => assert(all_methods()[5] == m),
        ERouterMethod::POST => assert(all_methods()[6] == m),
        ERouterMethod::PUT => assert(all_methods()[7] == m),
        ERouterMethod::TRACE => assert(all_methods()[8] == m),
    }
}

/// Method names identify methods: two methods with the same request-line name are the same
/// method.
pub proof fn lemma_method_name_injective(a: ERouterMethod, b: ERouterMethod)
    ensures
        method_name(a) == method_name(b) ==> a == b,
{
    reveal_strlit("CONNECT");
    reveal_strlit("DELETE");
    reveal_strlit("GET");
    reveal_strlit("HEAD");
    reveal_strlit("OPTIONS");
    reveal_strlit("PATCH");
    reveal_strlit("POST");
    reveal_strlit("PUT");
    reveal_strlit("TRACE");
    if method_name(a) == method_name(b) {
        assert(method_name(a).len() == method_name(b).len());
        assert(method_name(a)[0] == method_name(b)[0]);
        assert(method_name(a)[1] == method_name(b)[1]);
    }
}

/// `all_methods` lists each method exactly once.
pub proof fn lemma_all_methods_distinct()
    ensures
        forall|i: int, j: int| 0 <= i < 9 && 0 <= j < 9 && i != j ==> all_methods()[i] != all_methods()[j],
{
}


/// Pairs `handler` with `CONNECT`, ready to be registered with `Router::route`.
pub fn connect<H>(handler: H) -> (r: (ERouterMethod, H))
    ensures
        r.0 == ERouterMethod::CONNECT,
        r.1 == handler,
{
    (ERouterMethod::CONNECT, handler)
}

/// Pairs `handler` with `GET`, ready to be registered with `Router::route`.
pub fn get<H>(handler: H) -> (r: (ERouterMethod, H))
    ensures
        r.0 == ERouterMethod::GET,
        r.1 == handler,
{
    (ERouterMethod::GET, handler)
}

/// Pairs `handler` with `DELETE`, ready to be registered with `Router::route`.
pub fn delete<H>(handler: H) -> (r: (ERouterMethod, H))
    ensures
        r.0 == ERouterMethod::DELETE,
        r.1 == handler,
{
    (ERouterMethod::DELETE, handler)
}

/// Pairs `handler` with `HEAD`, ready to be registered with `Router::route`.
pub fn head<H>(handler: H) -> (r: (ERouterMethod, H))
    ensures
        r.0 == ERouterMethod::HEAD,
        r.1 == handler,
{
    (ERouterMethod::HEAD, handler)
}

/// Pairs `handler` with `OPTIONS`, ready to be registered with `Router::route`.
pub fn option<H>(handler: H) -> (r: (ERouterMethod, H))
    ensures
        r.0 == ERouterMethod::OPTIONS,
        r.1 == handler,
{
    (ERouterMethod::OPTIONS, handler)
}

/// Pairs `handler` with `PATCH`, ready to be registered with `Router::route`.
pub fn patch<H>(handler: H) -> (r: (ERouterMethod, H))
    ensures
        r.0 == ERouterMethod::PATCH,
        r.1 == handler,
{
    (ERouterMethod::PATCH, handler)
}

/// Pairs `handler` with `POST`, ready to be registered with `Router::route`.
pub fn post<H>(handler: H) -> (r: (ERouterMethod, H))
    ensures
        r.0 == ERouterMethod::POST,
        r.1 == handler,
{
    (ERouterMethod::POST, handler)
}

/// Pairs `handler` with `PUT`, ready to be registered with `Router::route`.
pub fn put<H>(handler: H) -> (r: (ERouterMethod, H))
    ensures
        r.0 == ERouterMethod::PUT,
        r.1 == handler,
{
    (ERouterMethod::PUT, handler)
}

/// Pairs `handler` with `TRACE`, ready to be registered with `Router::route`.
pub fn trace<H>(handler: H) -> (r: (ERouterMethod, H))
    ensures
        r.0 == ERouterMethod::TRACE,
        r.1 == handler,
{
    (ERouterMethod::TRACE, handler)
}

} // verus!
