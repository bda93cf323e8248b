//! The routing table: route templates registered per request method.
use vstd::prelude::*;

use crate::method::{all_methods, method_index, ERouterMethod};
use crate::pattern::{regex_builds, regex_is_match, CompiledPattern};
use crate::template::{extract_path_parameter, path_parameters, route_pattern};

verus! {

/// One registered route: a method, the template it was registered under, what handles it,
/// and the names of the template's parameters.
pub struct Route<H> {
    pub method: ERouterMethod,
    pub path: String,
    pub handler: H,
    pub parameters: Vec<String>,
}

/// The mathematical content of a [`Route`].
pub struct RouteView<H> {
    pub method: ERouterMethod,
    pub path: Seq<char>,
    pub handler: H,
    pub parameters: Seq<Seq<char>>,
}

impl<H> View for Route<H> {
    type V = RouteView<H>;

    open spec fn view(&self) -> RouteView<H> {
        RouteView {
            method: self.method,
            path: self.path@,
            handler: self.handler,
            parameters: self.parameters.deep_view(),
        }
    }
}

/// The route that registering `path` for `method` with `handler` creates.
pub open spec fn registered_route<H>(method: ERouterMethod, path: Seq<char>, handler: H) -> RouteView<H> {
    RouteView { method, path, handler, parameters: path_parameters(path) }
}

/// The mathematical content of a [`Router`]: its pattern keys in registration order, and the
/// route registered for each pair of pattern key and method.
pub struct RouterView<H> {
    pub keys: Seq<Seq<char>>,
    pub routes: Map<(Seq<char>, ERouterMethod), RouteView<H>>,
}

/// The routes registered under one pattern key, one slot per method.
struct RouteEntry<H> {
    pattern: CompiledPattern,
    routes: Vec<Option<Route<H>>>,
}

/// Why a route could not be registered.
#[derive(Debug)]
pub enum RouteError {
    /// The regular expression built from the template does not compile; it carries the
    /// expression's text.
    InvalidPattern(String),
}

/// A routing table.
pub struct Router<H> {
    keys: Vec<String>,
    entries: Vec<RouteEntry<H>>,
}

impl<H> Router<H> {
    /// The router's internal consistency: each key is distinct, compiles, has at least one
    /// route, and each route sits in its method's slot under its own pattern.
    #[verifier::type_invariant]
    pub closed spec fn well_formed(self) -> bool {
        &&& self.keys.len() == self.entries.len()
        &&& forall|i: int, j: int|
            0 <= i < self.keys.len() && 0 <= j < self.keys.len() && i != j ==> self.keys@[i]@
                != self.keys@[j]@
        &&& forall|i: int|
            0 <= i < self.keys.len() ==> {
                &&& (#[trigger] self.entries@[i]).pattern@ == self.keys@[i]@
                &&& regex_builds(self.keys@[i]@)
                &&& self.entries@[i].routes.len() == 9
                &&& exists|k: int| 0 <= k < 9 && self.entries@[i].routes@[k] is Some
                &&& forall|k: int|
                    0 <= k < 9 ==> (#[trigger] self.entries@[i].routes@[k] matches Some(r) ==> {
                        &&& r.method == all_methods()[k]
                        &&& route_pattern(r.path@) == self.keys@[i]@
                        &&& r.parameters.deep_view() == path_parameters(r.path@)
                    })
            }
    }

    /// The index of the key `k` among the keys.
    closed spec fn key_index(self, k: Seq<char>) -> int {
        choose|i: int| 0 <= i < self.keys.len() && self.keys@[i]@ == k
    }

    closed spec fn has_route(self, p: (Seq<char>, ERouterMethod)) -> bool {
        &&& self.keys.deep_view().contains(p.0)
        &&& self.entries@[self.key_index(p.0)].routes@[method_index(p.1)] is Some
    }

    closed spec fn route_view(self, p: (Seq<char>, ERouterMethod)) -> RouteView<H> {
        self.entries@[self.key_index(p.0)].routes@[method_index(p.1)]->Some_0@
    }

    /// The content of this router.
    pub closed spec fn model(self) -> RouterView<H> {
        RouterView {
            keys: self.keys.deep_view(),
            routes: Map::new(|p: (Seq<char>, ERouterMethod)| self.has_route(p), |p: (Seq<char>, ERouterMethod)| self.route_view(p)),
        }
    }

    proof fn lemma_key_index(self, i: int)
        requires
            self.well_formed(),
            0 <= i < self.keys.len(),
        ensures
            self.key_index(self.keys@[i]@) == i,
            self.keys.deep_view().contains(self.keys@[i]@),
    {
        assert(self.keys.deep_view()[i] == self.keys@[i]@);
        let j = self.key_index(self.keys@[i]@);
        assert(0 <= j < self.keys.len() && self.keys@[j]@ == self.keys@[i]@);
    }

    proof fn lemma_contains_key(self, k: Seq<char>)
        requires
            self.well_formed(),
            self.keys.deep_view().contains(k),
        ensures
            0 <= self.key_index(k) < self.keys.len(),
            self.keys@[self.key_index(k)]@ == k,
    {
        let i = choose|i: int| 0 <= i < self.keys.deep_view().len() && self.keys.deep_view()[i] == k;
        assert(self.keys@[i]@ == k);
    }

    /// Every route in the model was registered under its own pattern, carries its own
    /// method, and lists its template's parameters.
    pub proof fn lemma_model_routes(self)
        requires
            self.well_formed(),
        ensures
            forall|p: (Seq<char>, ERouterMethod)| #[trigger] self.model().routes.contains_key(p) ==> {
                &&& self.model().keys.contains(p.0)
                &&& self.model().routes[p].method == p.1
                &&& route_pattern(self.model().routes[p].path) == p.0
                &&& self.model().routes[p].parameters == path_parameters(self.model().routes[p].path)
            },
            forall|i: int, j: int|
                0 <= i < self.model().keys.len() && 0 <= j < self.model().keys.len() && i != j
                    ==> self.model().keys[i] != self.model().keys[j],
            forall|i: int| 0 <= i < self.model().keys.len() ==> regex_builds(#[trigger] self.model().keys[i]),
    {
        assert forall|p: (Seq<char>, ERouterMethod)| #[trigger] self.model().routes.contains_key(p) implies {
            &&& self.model().keys.contains(p.0)
            &&& self.model().routes[p].method == p.1
            &&& route_pattern(self.model().routes[p].path) == p.0
            &&& self.model().routes[p].parameters == path_parameters(self.model().routes[p].path)
        } by {
            self.lemma_contains_key(p.0);
            let i = self.key_index(p.0);
            let k = method_index(p.1);
            assert(self.entries@[i].routes@[k] is Some);
            assert(all_methods()[k] == p.1);
        }
        assert forall|i: int| 0 <= i < self.model().keys.len() implies regex_builds(#[trigger] self.model().keys[i]) by {
            assert(self.model().keys[i] == self.keys@[i]@);
            assert(self.entries@[i].pattern@ == self.keys@[i]@);
        }
    }

    /// An empty routing table.
    pub fn new() -> (r: Router<H>)
        ensures
            r.model().keys == Seq::<Seq<char>>::empty(),
            r.model().routes == Map::<(Seq<char>, ERouterMethod), RouteView<H>>::empty(),
    {
        let r = Router { keys: Vec::new(), entries: Vec::new() };
        assert(r.model().keys =~= Seq::<Seq<char>>::empty());
        assert(r.model().routes =~= Map::<(Seq<char>, ERouterMethod), RouteView<H>>::empty());
        r
    }

    /// The pattern keys, in the order in which they were first registered.
    pub fn keys(&self) -> (r: &Vec<String>)
        ensures
            r.deep_view() == self.model().keys,
    {
        &self.keys
    }

    /// The position of the pattern key `key`, if it is registered.
    fn find_key(&self, key: &String) -> (r: Option<usize>)
        ensures
            r matches Some(i) ==> i < self.keys.len() && self.keys@[i as int]@ == key@,
            r is None ==> !self.keys.deep_view().contains(key@),
    {
        let mut i: usize = 0;
        while i < self.keys.len()
            invariant
                i <= self.keys.len(),
                forall|j: int| 0 <= j < i ==> self.keys@[j]@ != key@,
            decreases self.keys.len() - i,
        {
            if self.keys[i] == *key {
                return Some(i);
            }
            i = i + 1;
        }
        proof {
            if self.keys.deep_view().contains(key@) {
                let j = choose|j: int| 0 <= j < self.keys.deep_view().len() && self.keys.deep_view()[j] == key@;
                assert(self.keys@[j]@ == key@);
            }
        }
        None
    }

    /// Registers `route_helper.1` to handle `route_helper.0` requests on the template `path`.
    ///
    /// The template is turned into a regular expression (see [`route_pattern`]), which
    /// becomes the route's key: the key is appended to the keys unless it is already there,
    /// and the route replaces any route registered before for the same key and method.
    /// Fails, consuming the router, exactly when that expression does not compile.
    pub fn route(self, path: String, route_helper: (ERouterMethod, H)) -> (r: Result<Router<H>, RouteError>)
        ensures
            r is Ok <==> regex_builds(route_pattern(path@)),
            r matches Ok(n) ==> {
                &&& n.model().keys == (if self.model().keys.contains(route_pattern(path@)) {
                    self.model().keys
                } else {
                    self.model().keys.push(route_pattern(path@))
                })
                &&& n.model().routes == self.model().routes.insert(
                    (route_pattern(path@), route_helper.0),
                    registered_route(route_helper.0, path@, route_helper.1),
                )
            },
            r matches Err(RouteError::InvalidPattern(p)) ==> p@ == route_pattern(path@),
    {
        proof {
            use_type_invariant(&self);
        }
        let (method, handler) = route_helper;
        let (pattern, parameters) = extract_path_parameter(&path);
        let ghost pat = pattern@;
        let ghost old_self = self;
        let found = self.find_key(&pattern);
        let k = method.index();
        let new_route = Route { method, path, handler, parameters };
        let ghost rv = new_route@;
        assert(rv == registered_route(method, path@, handler));
        let Router { mut keys, mut entries } = self;
        match found {
            Some(i) => {
                let mut entry = entries.remove(i);
                entry.routes.set(k, Some(new_route));
                entries.insert(i, entry);
                proof {
                    let cand = Router { keys, entries };
                    assert(entries@ =~= old_self.entries@.update(i as int, entry));
                    Router::lemma_after_replace(old_self, cand, i as int, k as int, pat, rv);
                    old_self.lemma_key_index(i as int);
                }
                Ok(Router { keys, entries })
            },
            None => {
                match CompiledPattern::compile(&pattern) {
                    None => Err(RouteError::InvalidPattern(pattern)),
                    Some(compiled) => {
                        let mut slots: Vec<Option<Route<H>>> = Vec::new();
                        let mut j: usize = 0;
                        while j < 9
                            invariant
                                j <= 9,
                                slots.len() == j,
                                forall|q: int| 0 <= q < j ==> slots@[q] is None,
                            decreases 9 - j,
                        {
                            slots.push(None);
                            j = j + 1;
                        }
                        slots.set(k, Some(new_route));
                        keys.push(pattern);
                        let entry = RouteEntry { pattern: compiled, routes: slots };
                        entries.push(entry);
                        proof {
                            let cand = Router { keys, entries };
                            Router::lemma_after_push(old_self, cand, entry, k as int, pat, rv);
                        }
                        Ok(Router { keys, entries })
                    },
                }
            },
        }
    }

    proof fn lemma_method_index_injective(a: ERouterMethod, b: ERouterMethod)
        ensures
            method_index(a) == method_index(b) ==> a == b,
            0 <= method_index(a) < 9,
            all_methods()[method_index(a)] == a,
    {
    }

    proof fn lemma_after_replace(
        old_r: Router<H>,
        n: Router<H>,
        i: int,
        k: int,
        pat: Seq<char>,
        rv: RouteView<H>,
    )
        requires
            old_r.well_formed(),
            0 <= i < old_r.keys.len(),
            old_r.keys@[i]@ == pat,
            k == method_index(rv.method),
            route_pattern(rv.path) == pat,
            rv.parameters == path_parameters(rv.path),
            n.keys == old_r.keys,
            n.entries@.len() == old_r.entries@.len(),
            forall|q: int| 0 <= q < n.entries@.len() && q != i ==> n.entries@[q] == old_r.entries@[q],
            n.entries@[i].pattern == old_r.entries@[i].pattern,
            n.entries@[i].routes@ == old_r.entries@[i].routes@.update(k, n.entries@[i].routes@[k]),
            n.entries@[i].routes@[k] matches Some(r) && r@ == rv,
        ensures
            n.well_formed(),
            n.model().keys == old_r.model().keys,
            n.model().routes == old_r.model().routes.insert((pat, rv.method), rv),
    {
        Router::<H>::lemma_method_index_injective(rv.method, rv.method);
        assert forall|q: int| 0 <= q < n.keys.len() implies {
            &&& (#[trigger] n.entries@[q]).pattern@ == n.keys@[q]@
            &&& regex_builds(n.keys@[q]@)
            &&& n.entries@[q].routes.len() == 9
            &&& exists|kk: int| 0 <= kk < 9 && n.entries@[q].routes@[kk] is Some
            &&& forall|kk: int|
                0 <= kk < 9 ==> (#[trigger] n.entries@[q].routes@[kk] matches Some(r) ==> {
                    &&& r.method == all_methods()[kk]
                    &&& route_pattern(r.path@) == n.keys@[q]@
                    &&& r.parameters.deep_view() == path_parameters(r.path@)
                })
        } by {
            assert(old_r.entries@[q].pattern@ == old_r.keys@[q]@);
            if q == i {
                assert(n.entries@[q].routes@[k] is Some);
            } else {
                let kk = choose|kk: int| 0 <= kk < 9 && old_r.entries@[q].routes@[kk] is Some;
                assert(n.entries@[q].routes@[kk] is Some);
            }
        }
        assert(n.well_formed());
        assert(n.model().keys == old_r.model().keys);
        old_r.lemma_key_index(i);
        assert forall|p: (Seq<char>, ERouterMethod)| n.has_route(p) == (old_r.has_route(p) || p == (pat, rv.method)) by {
            if n.keys.deep_view().contains(p.0) {
                old_r.lemma_contains_key(p.0);
                Router::<H>::lemma_method_index_injective(p.1, rv.method);
            }
            if p == (pat, rv.method) {
                assert(n.keys.deep_view().contains(p.0));
            }
        }
        assert forall|p: (Seq<char>, ERouterMethod)| n.has_route(p) implies n.route_view(p) == (if p == (pat, rv.method) { rv } else { old_r.route_view(p) }) by {
            old_r.lemma_contains_key(p.0);
            Router::<H>::lemma_method_index_injective(p.1, rv.method);
        }
        assert(n.model().routes =~= old_r.model().routes.insert((pat, rv.method), rv));
    }

    proof fn lemma_after_push(
        old_r: Router<H>,
        n: Router<H>,
        e: RouteEntry<H>,
        k: int,
        pat: Seq<char>,
        rv: RouteView<H>,
    )
        requires
            old_r.well_formed(),
            !old_r.keys.deep_view().contains(pat),
            regex_builds(pat),
            k == method_index(rv.method),
            route_pattern(rv.path) == pat,
            rv.parameters == path_parameters(rv.path),
            n.keys@.len() == old_r.keys@.len() + 1,
            forall|q: int| 0 <= q < old_r.keys@.len() ==> n.keys@[q] == old_r.keys@[q],
            n.keys@.last()@ == pat,
            n.entries@ == old_r.entries@.push(e),
            e.pattern@ == pat,
            e.routes@.len() == 9,
            e.routes@[k] matches Some(r) && r@ == rv,
            forall|q: int| 0 <= q < 9 && q != k ==> e.routes@[q] is None,
        ensures
            n.well_formed(),
            n.model().keys == old_r.model().keys.push(pat),
            n.model().routes == old_r.model().routes.insert((pat, rv.method), rv),
    {
        Router::<H>::lemma_method_index_injective(rv.method, rv.method);
        let len = old_r.keys@.len() as int;
        assert(n.model().keys =~= old_r.model().keys.push(pat));
        assert forall|a: int, b: int|
            0 <= a < n.keys.len() && 0 <= b < n.keys.len() && a != b implies n.keys@[a]@ != n.keys@[b]@ by {
            if a == len {
                assert(old_r.keys.deep_view()[b] == old_r.keys@[b]@);
            } else if b == len {
                assert(old_r.keys.deep_view()[a] == old_r.keys@[a]@);
            }
        }
        assert forall|q: int| 0 <= q < n.keys.len() implies {
            &&& (#[trigger] n.entries@[q]).pattern@ == n.keys@[q]@
            &&& regex_builds(n.keys@[q]@)
            &&& n.entries@[q].routes.len() == 9
            &&& exists|kk: int| 0 <= kk < 9 && n.entries@[q].routes@[kk] is Some
            &&& forall|kk: int|
                0 <= kk < 9 ==> (#[trigger] n.entries@[q].routes@[kk] matches Some(r) ==> {
                    &&& r.method == all_methods()[kk]
                    &&& route_pattern(r.path@) == n.keys@[q]@
                    &&& r.parameters.deep_view() == path_parameters(r.path@)
                })
        } by {
            if q == len {
                assert(n.entries@[q].routes@[k] is Some);
            } else {
                assert(old_r.entries@[q].pattern@ == old_r.keys@[q]@);
                let kk = choose|kk: int| 0 <= kk < 9 && old_r.entries@[q].routes@[kk] is Some;
                assert(n.entries@[q].routes@[kk] is Some);
            }
        }
        assert(n.well_formed());
        // key positions of the old keys do not move
        assert forall|kk: Seq<char>| old_r.keys.deep_view().contains(kk) implies n.key_index(kk) == old_r.key_index(kk) by {
            old_r.lemma_contains_key(kk);
            let j = old_r.key_index(kk);
            assert(n.keys@[j]@ == kk);
            n.lemma_key_index(j);
        }
        n.lemma_key_index(len);
        assert forall|p: (Seq<char>, ERouterMethod)| n.has_route(p) == (old_r.has_route(p) || p == (pat, rv.method)) by {
            Router::<H>::lemma_method_index_injective(p.1, rv.method);
            if n.keys.deep_view().contains(p.0) {
                n.lemma_contains_key(p.0);
                if p.0 != pat {
                    let j = n.key_index(p.0);
                    assert(j < len);
                    assert(old_r.keys.deep_view()[j] == p.0);
                }
            }
            if old_r.keys.deep_view().contains(p.0) {
                old_r.lemma_contains_key(p.0);
                let j = old_r.key_index(p.0);
                assert(n.keys.deep_view()[j] == p.0);
            }
            if p.0 == pat {
                assert(n.keys.deep_view()[len] == pat);
            }
        }
        assert forall|p: (Seq<char>, ERouterMethod)| n.has_route(p) implies n.route_view(p) == (if p == (pat, rv.method) { rv } else { old_r.route_view(p) }) by {
            Router::<H>::lemma_method_index_injective(p.1, rv.method);
            n.lemma_contains_key(p.0);
            if p.0 != pat {
                let j = n.key_index(p.0);
                assert(old_r.keys.deep_view()[j] == p.0);
            }
        }
        assert(n.model().routes =~= old_r.model().routes.insert((pat, rv.method), rv));
    }
}


/// The number of `/` in `s`.
pub open spec fn count_slashes(s: Seq<char>) -> nat
    decreases s.len(),
{
    if s.len() == 0 {
        0
    } else {
        (if s.last() == '/' { 1nat } else { 0nat }) + count_slashes(s.drop_last())
    }
}

/// How many pieces splitting a template at `/` gives: one more than its number of `/`.
pub open spec fn segment_count(s: Seq<char>) -> nat {
    count_slashes(s) + 1
}

/// The count of `/` in a text is the length of what is left of it when every character
/// other than `/` is taken out: no other character adds to a template's depth.
pub proof fn lemma_count_slashes_is_filter(s: Seq<char>)
    ensures
        count_slashes(s) == s.filter(|c: char| c == '/').len(),
    decreases s.len(),
{
    reveal(Seq::filter);
    if s.len() > 0 {
        lemma_count_slashes_is_filter(s.drop_last());
    }
}

/// Counting `/` adds up over concatenation, and a single character counts one exactly
/// when it is `/`.
pub proof fn lemma_count_slashes_concat(a: Seq<char>, b: Seq<char>, c: char)
    ensures
        count_slashes(a + b) == count_slashes(a) + count_slashes(b),
        count_slashes(seq![c]) == (if c == '/' { 1nat } else { 0nat }),
    decreases b.len(),
{
    assert(seq![c].drop_last() =~= Seq::<char>::empty());
    assert(seq![c].last() == c);
    assert(count_slashes(seq![c].drop_last()) == 0);
    if b.len() == 0 {
        assert(a + b =~= a);
    } else {
        assert((a + b).drop_last() =~= a + b.drop_last());
        lemma_count_slashes_concat(a, b.drop_last(), c);
    }
}

/// Two texts of the same length with `/` at the same places have the same depth,
/// whatever their other characters.
pub proof fn lemma_segment_count_depends_on_slashes_only(s: Seq<char>, t: Seq<char>)
    requires
        s.len() == t.len(),
        forall|i: int| 0 <= i < s.len() ==> (s[i] == '/') == (t[i] == '/'),
    ensures
        segment_count(s) == segment_count(t),
    decreases s.len(),
{
    if s.len() > 0 {
        lemma_segment_count_depends_on_slashes_only(s.drop_last(), t.drop_last());
    }
}

impl<H> RouterView<H> {
    /// For each key in order, whether its pattern matches `text`.
    pub open spec fn matches_of(self, text: Seq<char>) -> Seq<bool> {
        Seq::new(self.keys.len(), |i: int| regex_is_match(self.keys[i], text))
    }

    /// Key `i` is marked in `matched` and has a route for `m`.
    pub open spec fn is_eligible(self, i: int, m: ERouterMethod, matched: Seq<bool>) -> bool {
        &&& 0 <= i < self.keys.len()
        &&& i < matched.len()
        &&& matched[i]
        &&& self.routes.contains_key((self.keys[i], m))
    }

    /// The number of segments of the template of the route for `m` under key `i`.
    pub open spec fn depth(self, i: int, m: ERouterMethod) -> nat {
        segment_count(self.routes[(self.keys[i], m)].path)
    }

    /// Key `i` is eligible, no eligible key has more segments, and every eligible key
    /// before it has fewer.
    pub open spec fn is_chosen(self, i: int, m: ERouterMethod, matched: Seq<bool>) -> bool {
        &&& self.is_eligible(i, m, matched)
        &&& forall|j: int| #[trigger] self.is_eligible(j, m, matched) ==> self.depth(j, m) <= self.depth(i, m)
        &&& forall|j: int| 0 <= j < i && #[trigger] self.is_eligible(j, m, matched) ==> self.depth(j, m) < self.depth(i, m)
    }

    /// Key `i` matches `text` and has a route for `m`.
    pub open spec fn is_candidate(self, i: int, m: ERouterMethod, text: Seq<char>) -> bool {
        self.is_eligible(i, m, self.matches_of(text))
    }

    /// Key `i` is the one a request for `m` on `text` is routed to: a candidate with the most
    /// segments, and the first such in key order.
    pub open spec fn is_selected(self, i: int, m: ERouterMethod, text: Seq<char>) -> bool {
        self.is_chosen(i, m, self.matches_of(text))
    }
}

/// The number of `/` in `s`.
pub fn count_slashes_in(s: &String) -> (r: usize)
    ensures
        r == count_slashes(s@),
{
    let v = crate::text::chars_of(s.as_str());
    let mut n: usize = 0;
    let mut i: usize = 0;
    while i < v.len()
        invariant
            i <= v.len(),
            n <= i,
            n == count_slashes(v@.take(i as int)),
        decreases v.len() - i,
    {
        assert(v@.take(i + 1).drop_last() =~= v@.take(i as int));
        if v[i] == '/' {
            n = n + 1;
        }
        i = i + 1;
    }
    assert(v@.take(v.len() as int) =~= v@);
    n
}

impl<H> Router<H> {
    proof fn lemma_slot(self, i: int, m: ERouterMethod)
        requires
            self.well_formed(),
            0 <= i < self.keys.len(),
        ensures
            self.model().keys[i] == self.keys@[i]@,
            self.model().keys.len() == self.keys.len(),
            self.model().routes.contains_key((self.keys@[i]@, m)) == (self.entries@[i].routes@[method_index(m)] is Some),
            self.entries@[i].routes@[method_index(m)] matches Some(r) ==> self.model().routes[(self.keys@[i]@, m)] == r@,
    {
        self.lemma_key_index(i);
    }

    /// For each key in order, whether its pattern matches `text`.
    pub fn match_keys(&self, text: &str) -> (r: Vec<bool>)
        ensures
            r@ == self.model().matches_of(text@),
    {
        proof {
            use_type_invariant(self);
        }
        let mut r: Vec<bool> = Vec::new();
        let mut i: usize = 0;
        while i < self.keys.len()
            invariant
                self.well_formed(),
                i <= self.keys.len(),
                r@ == self.model().matches_of(text@).take(i as int),
            decreases self.keys.len() - i,
        {
            proof {
                self.lemma_slot(i as int, ERouterMethod::GET);
                assert(self.entries@[i as int].pattern@ == self.keys@[i as int]@);
            }
            let found = self.entries[i].pattern.is_match(text);
            r.push(found);
            assert(r@ =~= self.model().matches_of(text@).take(i + 1));
            i = i + 1;
        }
        assert(r@ =~= self.model().matches_of(text@));
        r
    }

    /// Given which keys match (`matched`, key by key), the key a request for `m` is routed
    /// to: among the matching keys that have a route for `m`, the first of those whose
    /// template has the most segments; `None` when there is no such key.
    pub fn select_among(&self, m: ERouterMethod, matched: &Vec<bool>) -> (r: Option<usize>)
        requires
            matched.len() == self.model().keys.len(),
        ensures
            r matches Some(i) ==> self.model().is_chosen(i as int, m, matched@),
            r is None ==> forall|j: int| !self.model().is_eligible(j, m, matched@),
    {
        proof {
            use_type_invariant(self);
        }
        let k = m.index();
        let ghost model = self.model();
        let mut best: Option<(usize, usize)> = None;
        let mut i: usize = 0;
        while i < self.keys.len()
            invariant
                self.well_formed(),
                model == self.model(),
                matched.len() == self.keys.len(),
                k == method_index(m),
                i <= self.keys.len(),
                best matches Some(b) ==> {
                    &&& b.0 < i
                    &&& model.is_eligible(b.0 as int, m, matched@)
                    &&& b.1 + 1 == model.depth(b.0 as int, m)
                    &&& forall|j: int| 0 <= j < i && #[trigger] model.is_eligible(j, m, matched@) ==> model.depth(j, m) <= model.depth(b.0 as int, m)
                    &&& forall|j: int| 0 <= j < b.0 && #[trigger] model.is_eligible(j, m, matched@) ==> model.depth(j, m) < model.depth(b.0 as int, m)
                },
                best is None ==> forall|j: int| 0 <= j < i ==> !#[trigger] model.is_eligible(j, m, matched@),
            decreases self.keys.len() - i,
        {
            proof {
                self.lemma_slot(i as int, m);
            }
            if matched[i] {
                match &self.entries[i].routes[k] {
                    Some(route) => {
                        let slashes = count_slashes_in(&route.path);
                        let better = match best {
                            None => true,
                            Some(b) => slashes > b.1,
                        };
                        if better {
                            best = Some((i, slashes));
                        }
                    },
                    None => {},
                }
            }
            i = i + 1;
        }
        match best {
            Some(b) => Some(b.0),
            None => None,
        }
    }

    /// The key that a request for `m` on `text` is routed to: among the keys whose pattern
    /// matches `text` and that have a route for `m`, the first of those whose template has
    /// the most segments; `None` when there is no such key.
    pub fn select_route(&self, m: ERouterMethod, text: &str) -> (r: Option<usize>)
        ensures
            r matches Some(i) ==> self.model().is_selected(i as int, m, text@),
            r is None ==> forall|j: int| !self.model().is_candidate(j, m, text@),
    {
        proof {
            use_type_invariant(self);
        }
        let matched = self.match_keys(text);
        self.select_among(m, &matched)
    }

    /// The compiled pattern of key `i`.
    pub fn pattern_at(&self, i: usize) -> (r: &CompiledPattern)
        requires
            i < self.model().keys.len(),
        ensures
            r@ == self.model().keys[i as int],
    {
        proof {
            use_type_invariant(self);
        }
        proof {
            self.lemma_slot(i as int, ERouterMethod::GET);
        }
        &self.entries[i].pattern
    }

    /// The route registered for `m` under key `i`, if any.
    pub fn route_at(&self, i: usize, m: ERouterMethod) -> (r: Option<&Route<H>>)
        requires
            i < self.model().keys.len(),
        ensures
            r is Some <==> self.model().routes.contains_key((self.model().keys[i as int], m)),
            r matches Some(route) ==> route@ == self.model().routes[(self.model().keys[i as int], m)],
    {
        proof {
            use_type_invariant(self);
        }
        proof {
            self.lemma_slot(i as int, m);
        }
        let k = m.index();
        match &self.entries[i].routes[k] {
            Some(route) => Some(route),
            None => None,
        }
    }
}


impl<H> RouterView<H> {
    /// Among the eligible keys below `n`, one with the most segments that comes first.
    proof fn lemma_best_below(self, m: ERouterMethod, matched: Seq<bool>, n: int) -> (i: int)
        requires
            0 <= n <= self.keys.len(),
            exists|j: int| 0 <= j < n && #[trigger] self.is_eligible(j, m, matched),
        ensures
            0 <= i < n,
            self.is_eligible(i, m, matched),
            forall|k: int| 0 <= k < n && #[trigger] self.is_eligible(k, m, matched) ==> self.depth(k, m) <= self.depth(i, m),
            forall|k: int| 0 <= k < i && #[trigger] self.is_eligible(k, m, matched) ==> self.depth(k, m) < self.depth(i, m),
        decreases n,
    {
        let last = n - 1;
        if exists|j: int| 0 <= j < last && #[trigger] self.is_eligible(j, m, matched) {
            let b = self.lemma_best_below(m, matched, last);
            if self.is_eligible(last, m, matched) && self.depth(last, m) > self.depth(b, m) {
                last
            } else {
                b
            }
        } else {
            last
        }
    }

    /// Whenever some key is eligible, one key is chosen.
    pub proof fn lemma_eligible_gets_chosen(self, m: ERouterMethod, matched: Seq<bool>, j: int)
        requires
            self.is_eligible(j, m, matched),
        ensures
            exists|i: int| #[trigger] self.is_chosen(i, m, matched),
    {
        let i = self.lemma_best_below(m, matched, self.keys.len() as int);
        assert(self.is_chosen(i, m, matched));
    }

    /// At most one key is chosen: two chosen keys are the same key.
    pub proof fn lemma_choice_unique(self, m: ERouterMethod, matched: Seq<bool>, i: int, j: int)
        requires
            self.is_chosen(i, m, matched),
            self.is_chosen(j, m, matched),
        ensures
            i == j,
    {
        if i < j {
            assert(self.depth(i, m) < self.depth(j, m));
            assert(self.depth(j, m) <= self.depth(i, m));
        } else if j < i {
            assert(self.depth(j, m) < self.depth(i, m));
            assert(self.depth(i, m) <= self.depth(j, m));
        }
    }

    /// A request that some route can take is routed somewhere: when some key is a
    /// candidate, one key is selected.
    pub proof fn lemma_candidate_gets_selected(self, m: ERouterMethod, text: Seq<char>, j: int)
        requires
            self.is_candidate(j, m, text),
        ensures
            exists|i: int| #[trigger] self.is_selected(i, m, text),
    {
        self.lemma_eligible_gets_chosen(m, self.matches_of(text), j);
        let i = choose|i: int| #[trigger] self.is_chosen(i, m, self.matches_of(text));
        assert(self.is_selected(i, m, text));
    }

    /// Routing picks at most one key: two selected keys are the same key.
    pub proof fn lemma_selection_unique(self, m: ERouterMethod, text: Seq<char>, i: int, j: int)
        requires
            self.is_selected(i, m, text),
            self.is_selected(j, m, text),
        ensures
            i == j,
    {
        self.lemma_choice_unique(m, self.matches_of(text), i, j);
    }
}

/// A registered route can be reached: once `path` is registered for `m` (the keys then
/// hold its pattern and the routes map that pattern and `m` to the new route), every
/// request for `m` whose path the pattern matches is routed to some key.
pub proof fn lemma_registered_route_reachable<H>(
    after: RouterView<H>,
    before: RouterView<H>,
    path: Seq<char>,
    m: ERouterMethod,
    handler: H,
    text: Seq<char>,
)
    requires
        after.keys.contains(route_pattern(path)),
        after.routes == before.routes.insert((route_pattern(path), m), registered_route(m, path, handler)),
        regex_is_match(route_pattern(path), text),
    ensures
        after.routes[(route_pattern(path), m)] == registered_route(m, path, handler),
        exists|i: int| #[trigger] after.is_selected(i, m, text),
{
    let j = choose|j: int| 0 <= j < after.keys.len() && after.keys[j] == route_pattern(path);
    assert(after.is_candidate(j, m, text));
    after.lemma_candidate_gets_selected(m, text, j);
}

} // verus!
