//! Route selection.
//!
//! A [`RouteMatcher`] holds the routes of a configuration in evaluation order,
//! with their conditions compiled, and a cache of decisions.

use crate::cache;
use crate::cache::{CacheStats, RouteCache};
use crate::config::{MatchCondition, Priority, RouteConfig, RoutePolicies};
use crate::matching;
use crate::matching::{HostPattern, Request};
use crate::pattern;
use crate::request;
use crate::strmap::StringMap;
use crate::text;
use regex::Regex;
use std::sync::Arc;
use vstd::prelude::*;
use vstd::string::*;

verus! {

/// Cache size of [`RouteMatcher::new`].
pub const DEFAULT_CACHE_SIZE: usize = 1000;

// ---------------------------------------------------------------------------
// The cache and live decisions
// ---------------------------------------------------------------------------

/// Some route of the table has a condition on a query parameter.
pub open spec fn reads_query(table: Seq<RouteConfig>) -> bool {
    exists|i: int, j: int|
        0 <= i < table.len() && 0 <= j < table[i].matches@.len()
            && #[trigger] table[i].matches@[j] is QueryParam
}

/// Some route of the table has a condition on a header.
pub open spec fn reads_headers(table: Seq<RouteConfig>) -> bool {
    exists|i: int, j: int|
        0 <= i < table.len() && 0 <= j < table[i].matches@.len()
            && #[trigger] table[i].matches@[j] is Header
}

/// No two routes share an identifier.
pub open spec fn distinct_ids(table: Seq<RouteConfig>) -> bool {
    forall|i: int, j: int|
        0 <= i < j < table.len() ==> (#[trigger] table[i]).id@ != (#[trigger] table[j]).id@
}

/// Each cached decision is the one that evaluation makes.
pub open spec fn cache_sound(
    table: Seq<RouteConfig>,
    entries: Map<Seq<char>, Seq<char>>,
) -> bool {
    forall|q: Request|
        entries.contains_key(#[trigger] request::cache_key(q)) ==> {
            let k = matching::first_match(table, q, 0);
            k < table.len() && table[k].id@ == entries[request::cache_key(q)]
        }
}

/// The route of a live request: the cached one if the cache knows the key and
/// the table the identifier, else the one that evaluation finds.
pub open spec fn live(
    table: Seq<RouteConfig>,
    default: Option<Seq<char>>,
    entries: Map<Seq<char>, Seq<char>>,
    q: Request,
) -> Option<int> {
    if cached(table, entries, q) {
        Some(matching::find_id(table, entries[request::cache_key(q)], 0))
    } else {
        matching::decide(table, default, q)
    }
}

/// The cache answers for the request.
pub open spec fn cached(
    table: Seq<RouteConfig>,
    entries: Map<Seq<char>, Seq<char>>,
    q: Request,
) -> bool {
    entries.contains_key(request::cache_key(q)) && matching::find_id(
        table,
        entries[request::cache_key(q)],
        0,
    ) < table.len()
}

/// The route at `a` is the one at `b`, as far as its identifier tells.
pub open spec fn same_id(table: Seq<RouteConfig>, a: Option<int>, b: Option<int>) -> bool {
    match (a, b) {
        (Some(i), Some(j)) => 0 <= i < table.len() && 0 <= j < table.len() && table[i].id@
            == table[j].id@,
        (None, None) => true,
        _ => false,
    }
}

/// With a sound cache a live request is routed as evaluation, and so an
/// explanation, routes it.
pub proof fn live_route_is_explained_winner(
    table: Seq<RouteConfig>,
    default: Option<Seq<char>>,
    entries: Map<Seq<char>, Seq<char>>,
    q: Request,
)
    requires
        cache_sound(table, entries),
    ensures
        same_id(
            table,
            live(table, default, entries, q),
            matching::decide(table, default, q),
        ),
        distinct_ids(table) ==> live(table, default, entries, q) == matching::decide(
            table,
            default,
            q,
        ),
{
    matching::lemma_first_match(table, q, 0);
    if let Some(d) = default {
        matching::lemma_find_id(table, d, 0);
    }
    if cached(table, entries, q) {
        let id = entries[request::cache_key(q)];
        let k = matching::first_match(table, q, 0);
        let f = matching::find_id(table, id, 0);
        matching::lemma_find_id(table, id, 0);
        assert(table[k].id@ == id && table[f].id@ == id);
        if distinct_ids(table) {
            if k < f {
                assert(table[k].id@ != table[f].id@);
            } else if f < k {
                assert(table[f].id@ != table[k].id@);
            }
        }
    }
}

/// An empty cache is sound.
pub proof fn empty_cache_is_sound(table: Seq<RouteConfig>)
    ensures
        cache_sound(table, cache::no_entries()),
{
}

/// Caching a decision keeps the cache sound.
pub proof fn caching_keeps_soundness(
    table: Seq<RouteConfig>,
    before: Map<Seq<char>, Seq<char>>,
    max_size: usize,
    q: Request,
    after: Map<Seq<char>, Seq<char>>,
)
    requires
        cache_sound(table, before),
        matching::first_match(table, q, 0) < table.len(),
        cache::inserted(
            before,
            max_size,
            request::cache_key(q),
            table[matching::first_match(table, q, 0)].id@,
            after,
        ),
    ensures
        cache_sound(table, after),
{
    let key = request::cache_key(q);
    let id = table[matching::first_match(table, q, 0)].id@;
    if max_size > 0 {
        cache::inserted_is_found(before, max_size, key, id, after);
    }
    assert forall|p: Request| after.contains_key(#[trigger] request::cache_key(p)) implies ({
        let k = matching::first_match(table, p, 0);
        k < table.len() && table[k].id@ == after[request::cache_key(p)]
    }) by {
        if request::cache_key(p) == key {
            request::cache_key_is_injective(p, q);
        } else {
            cache::inserted_adds_nothing_else(
                before,
                max_size,
                key,
                id,
                after,
                request::cache_key(p),
            );
        }
    }
}

// ---------------------------------------------------------------------------
// Errors and identifiers
// ---------------------------------------------------------------------------

/// Identifier of a route.
#[derive(Debug, Clone, PartialEq, Eq)]
pub struct RouteId {
    id: String,
}

impl View for RouteId {
    type V = Seq<char>;

    closed spec fn view(&self) -> Seq<char> {
        self.id@
    }
}

impl RouteId {
    /// The identifier with a text.
    pub fn new(id: String) -> (r: RouteId)
        ensures
            r@ == id@,
    {
        RouteId { id }
    }

    /// The text.
    pub fn as_str(&self) -> (r: &str)
        ensures
            r@ == self@,
    {
        self.id.as_str()
    }

    /// The same identifier again.
    pub fn copy(&self) -> (r: RouteId)
        ensures
            r@ == self@,
    {
        RouteId { id: self.id.clone() }
    }
}

/// Why a set of routes is refused.
#[derive(Debug, PartialEq, Eq)]
pub enum RouteError {
    /// A pattern does not compile.
    InvalidRegex {
        /// The pattern.
        pattern: String,
        /// What is wrong with it.
        error: String,
    },
    /// A route cannot be used.
    InvalidConfig(String),
    /// Two routes share an identifier.
    DuplicateRouteId(String),
}

/// An error in words.
pub open spec fn route_error_text(e: RouteError) -> Seq<char> {
    match e {
        RouteError::InvalidRegex { pattern, error } => "Invalid regex pattern '"@ + pattern@
            + "': "@ + error@,
        RouteError::InvalidConfig(m) => "Invalid route configuration: "@ + m@,
        RouteError::DuplicateRouteId(id) => "Duplicate route ID: "@ + id@,
    }
}

impl RouteError {
    /// The error in words.
    pub fn message(&self) -> (r: String)
        ensures
            r@ == route_error_text(*self),
    {
        match self {
            RouteError::InvalidRegex { pattern, error } => {
                let mut out = "Invalid regex pattern '".to_owned();
                out.append(pattern.as_str());
                out.append("': ");
                out.append(error.as_str());
                out
            },
            RouteError::InvalidConfig(m) => {
                let mut out = "Invalid route configuration: ".to_owned();
                out.append(m.as_str());
                out
            },
            RouteError::DuplicateRouteId(id) => {
                let mut out = "Duplicate route ID: ".to_owned();
                out.append(id.as_str());
                out
            },
        }
    }
}

/// The condition is a regular expression that does not compile.
pub open spec fn broken(c: MatchCondition) -> bool {
    c matches MatchCondition::PathRegex(p) && pattern::regex_error(p@) is Some
}

/// The first broken condition from `from` on, or the length.
pub open spec fn first_broken(cs: Seq<MatchCondition>, from: int) -> int
    decreases cs.len() - from,
{
    if from < 0 || from >= cs.len() || broken(cs[from]) {
        from
    } else {
        first_broken(cs, from + 1)
    }
}

/// What is wrong with the conditions of a route: pattern and message.
pub open spec fn conditions_error(cs: Seq<MatchCondition>) -> Option<(Seq<char>, Seq<char>)> {
    let k = first_broken(cs, 0);
    if k < cs.len() {
        let p = cs[k]->PathRegex_0@;
        Some((p, pattern::regex_error(p)->0))
    } else {
        None
    }
}

/// What is wrong with the routes: the first error in configuration order.
pub open spec fn routes_error(routes: Seq<RouteConfig>) -> Option<(Seq<char>, Seq<char>)>
    decreases routes.len(),
{
    if routes.len() == 0 {
        None
    } else {
        match routes_error(routes.drop_last()) {
            Some(e) => Some(e),
            None => conditions_error(routes.last().matches@),
        }
    }
}

proof fn lemma_routes_error_prefix(routes: Seq<RouteConfig>, n: int)
    requires
        0 <= n <= routes.len(),
        routes_error(routes.take(n)) is Some,
    ensures
        routes_error(routes) == routes_error(routes.take(n)),
    decreases routes.len(),
{
    if n == routes.len() {
        assert(routes.take(n) =~= routes);
    } else {
        assert(routes.drop_last().take(n) =~= routes.take(n));
        lemma_routes_error_prefix(routes.drop_last(), n);
    }
}

// ---------------------------------------------------------------------------
// Requests
// ---------------------------------------------------------------------------

/// A request for route matching.
#[derive(Debug)]
pub struct RequestInfo<'a> {
    /// HTTP method.
    pub method: &'a str,
    /// Request path.
    pub path: &'a str,
    /// Value of the `Host` header.
    pub host: &'a str,
    headers: StringMap<String>,
    query_params: StringMap<String>,
}

impl<'a> View for RequestInfo<'a> {
    type V = Request;

    closed spec fn view(&self) -> Request {
        Request {
            method: self.method@,
            path: self.path@,
            host: self.host@,
            headers: self.headers.deep_view(),
            query: self.query_params.deep_view(),
        }
    }
}

impl<'a> RequestInfo<'a> {
    /// A request without headers and query parameters.
    pub fn new(method: &'a str, path: &'a str, host: &'a str) -> (r: RequestInfo<'a>)
        ensures
            r@ == (Request {
                method: method@,
                path: path@,
                host: host@,
                headers: Seq::empty(),
                query: Seq::empty(),
            }),
    {
        RequestInfo {
            method,
            path,
            host,
            headers: StringMap::new(),
            query_params: StringMap::new(),
        }
    }

    /// The request with other headers.
    pub fn with_headers(self, headers: StringMap<String>) -> (r: RequestInfo<'a>)
        ensures
            r@ == (Request { headers: headers.deep_view(), ..self@ }),
    {
        RequestInfo {
            method: self.method,
            path: self.path,
            host: self.host,
            headers,
            query_params: self.query_params,
        }
    }

    /// The request with other query parameters.
    pub fn with_query_params(self, params: StringMap<String>) -> (r: RequestInfo<'a>)
        ensures
            r@ == (Request { query: params.deep_view(), ..self@ }),
    {
        RequestInfo {
            method: self.method,
            path: self.path,
            host: self.host,
            headers: self.headers,
            query_params: params,
        }
    }

    /// The headers.
    pub fn headers(&self) -> (r: &StringMap<String>)
        ensures
            r.deep_view() == self@.headers,
    {
        &self.headers
    }

    /// The query parameters.
    pub fn query_params(&self) -> (r: &StringMap<String>)
        ensures
            r.deep_view() == self@.query,
    {
        &self.query_params
    }

    /// The key under which the decision on this request is cached.
    pub fn cache_key(&self) -> (r: String)
        ensures
            r@ == request::cache_key(self@),
    {
        let headers = request::entries_text(&self.headers);
        let query = request::entries_text(&self.query_params);
        let mut out = String::new();
        request::push_field(&mut out, self.method);
        request::push_field(&mut out, self.host);
        request::push_field(&mut out, self.path);
        request::push_field(&mut out, headers.as_str());
        request::push_field(&mut out, query.as_str());
        assert(out@ =~= request::cache_key(self@));
        out
    }

    /// The query parameters of a path.
    pub fn parse_query_params(path: &str) -> (r: StringMap<String>)
        ensures
            r.deep_view() == request::query_params(path@),
    {
        request::parse_query_params(path)
    }

    /// The map of header fields, given as names and raw values.
    pub fn build_headers(fields: &Vec<(String, Vec<u8>)>) -> (r: StringMap<String>)
        ensures
            r.deep_view() == request::header_map(request::fields_view(fields@)),
    {
        request::build_headers(fields)
    }
}

// ---------------------------------------------------------------------------
// Compiled conditions
// ---------------------------------------------------------------------------

/// A host pattern, ready to be matched.
enum HostMatcher {
    Exact(String),
    Wildcard { suffix: String },
    Regex(Regex),
}

/// A condition, ready to be evaluated.
enum CompiledMatcher {
    Path(String),
    PathPrefix(String),
    PathRegex { pattern: String, regex: Regex },
    Host(HostMatcher),
    Header { name: String, value: Option<String> },
    Method(Vec<String>),
    QueryParam { name: String, value: Option<String> },
}

/// The matcher stands for the host pattern.
closed spec fn host_compiled(m: HostMatcher, p: HostPattern) -> bool {
    match m {
        HostMatcher::Exact(e) => p == HostPattern::Exact(e@),
        HostMatcher::Wildcard { suffix } => p == (HostPattern::Wildcard { suffix: suffix@ }),
        HostMatcher::Regex(re) => p matches HostPattern::Regex(r) && forall|t: Seq<char>| #[trigger]
            pattern::accepts(re, t) == pattern::regex_matches(r, t),
    }
}

/// The matcher stands for the condition.
closed spec fn compiled_for(m: CompiledMatcher, c: MatchCondition) -> bool {
    match m {
        CompiledMatcher::Path(s) => c matches MatchCondition::Path(p) && s@ == p@,
        CompiledMatcher::PathPrefix(s) => c matches MatchCondition::PathPrefix(p) && s@ == p@,
        CompiledMatcher::PathRegex { pattern, regex } => c matches MatchCondition::PathRegex(p)
            && pattern@ == p@ && forall|t: Seq<char>| #[trigger]
            pattern::accepts(regex, t) == pattern::regex_matches(p@, t),
        CompiledMatcher::Host(h) => c matches MatchCondition::Host(p) && host_compiled(
            h,
            matching::host_pattern(p@),
        ),
        CompiledMatcher::Header { name, value } => c matches MatchCondition::Header {
            name: n,
            value: v,
        } && name@ == text::lowercase(n@) && value.deep_view() == v.deep_view(),
        CompiledMatcher::Method(ms) => c matches MatchCondition::Method(methods) && ms.deep_view()
            == matching::upper_methods(methods@),
        CompiledMatcher::QueryParam { name, value } => c matches MatchCondition::QueryParam {
            name: n,
            value: v,
        } && name@ == n@ && value.deep_view() == v.deep_view(),
    }
}

fn copy_text(v: &Option<String>) -> (r: Option<String>)
    ensures
        r.deep_view() == v.deep_view(),
{
    match v {
        Some(s) => Some(s.clone()),
        None => None,
    }
}

/// A required value is the value that is there.
fn value_matches(found: Option<&String>, required: &Option<String>) -> (r: bool)
    ensures
        r == matching::value_matches(
            (match found {
                Some(v) => Some(v@),
                None => None,
            }),
            required.deep_view(),
        ),
{
    match found {
        Some(v) => match required {
            Some(w) => text::same(v.as_str(), w.as_str()),
            None => true,
        },
        None => false,
    }
}

/// [`matching::prefix_matches`] on strings.
pub fn prefix_matches(prefix: &str, path: &str) -> (r: bool)
    ensures
        r == matching::prefix_matches(prefix@, path@),
{
    if !text::starts_with(path, prefix) {
        return false;
    }
    let p = text::chars_of(prefix);
    let t = text::chars_of(path);
    assert(p@.len() <= t@.len());
    text::same(prefix, "/") || t.len() == p.len() || (p.len() > 0 && p[p.len() - 1] == '/')
        || t[p.len()] == '/' || t[p.len()] == '?'
}

impl HostMatcher {
    fn parse(p: &str) -> (r: HostMatcher)
        ensures
            host_compiled(r, matching::host_pattern(p@)),
    {
        if text::starts_with(p, "*.") {
            let v = text::chars_of(p);
            proof {
                reveal_strlit("*.");
            }
            let suffix = text::string_of_range(v.as_slice(), 2, v.len());
            assert(suffix@ =~= p@.skip(2));
            HostMatcher::Wildcard { suffix }
        } else if text::contains_char(p, '*') || text::contains_char(p, '[') {
            match pattern::compile(p) {
                Ok(re) => HostMatcher::Regex(re),
                Err(_) => HostMatcher::Exact(p.to_owned()),
            }
        } else {
            HostMatcher::Exact(p.to_owned())
        }
    }

    fn matches(&self, host: &str) -> (r: bool)
        ensures
            forall|p: HostPattern| #[trigger]
                host_compiled(*self, p) ==> r == matching::host_matches(p, host@),
    {
        let v = text::chars_of(host);
        let k = text::find_in(v.as_slice(), ':', 0);
        let h = text::string_of_range(v.as_slice(), 0, k);
        assert(h@ =~= matching::bare_host(host@));
        match self {
            HostMatcher::Exact(e) => text::same(h.as_str(), e.as_str()),
            HostMatcher::Wildcard { suffix } => {
                let s = text::chars_of(suffix.as_str());
                text::ends_with(h.as_str(), suffix.as_str()) && k > s.len() && v[k - s.len() - 1]
                    == '.'
            },
            HostMatcher::Regex(re) => pattern::is_match(re, h.as_str()),
        }
    }
}

impl CompiledMatcher {
    fn compile(c: &MatchCondition) -> (r: Result<CompiledMatcher, RouteError>)
        ensures
            (match r {
                Ok(m) => !broken(*c) && compiled_for(m, *c),
                Err(e) => {
                    &&& broken(*c)
                    &&& e matches RouteError::InvalidRegex { pattern, error }
                    &&& pattern@ == c->PathRegex_0@
                    &&& error@ == pattern::regex_error(pattern@)->0
                },
            }),
    {
        match c {
            MatchCondition::Path(p) => Ok(CompiledMatcher::Path(p.clone())),
            MatchCondition::PathPrefix(p) => Ok(CompiledMatcher::PathPrefix(p.clone())),
            MatchCondition::PathRegex(p) => {
                match pattern::compile(p.as_str()) {
                    Ok(regex) => Ok(CompiledMatcher::PathRegex { pattern: p.clone(), regex }),
                    Err(error) => Err(RouteError::InvalidRegex { pattern: p.clone(), error }),
                }
            },
            MatchCondition::Host(p) => Ok(CompiledMatcher::Host(HostMatcher::parse(p.as_str()))),
            MatchCondition::Header { name, value } => Ok(
                CompiledMatcher::Header {
                    name: text::lower(name.as_str()),
                    value: copy_text(value),
                },
            ),
            MatchCondition::Method(methods) => Ok(CompiledMatcher::Method(upper_all(methods))),
            MatchCondition::QueryParam { name, value } => Ok(
                CompiledMatcher::QueryParam { name: name.clone(), value: copy_text(value) },
            ),
        }
    }

    fn matches(&self, req: &RequestInfo<'_>) -> (r: bool)
        ensures
            forall|c: MatchCondition| #[trigger]
                compiled_for(*self, c) ==> r == matching::condition_matches(c, req@),
    {
        match self {
            CompiledMatcher::Path(p) => text::same(req.path, p.as_str()),
            CompiledMatcher::PathPrefix(p) => prefix_matches(p.as_str(), req.path),
            CompiledMatcher::PathRegex { pattern: _, regex } => pattern::is_match(regex, req.path),
            CompiledMatcher::Host(h) => {
                let r = h.matches(req.host);
                assert forall|c: MatchCondition| #[trigger] compiled_for(*self, c) implies r
                    == matching::condition_matches(c, req@) by {
                    assert(host_compiled(*h, matching::host_pattern(c->Host_0@)));
                }
                r
            },
            CompiledMatcher::Header { name, value } => value_matches(
                req.headers.get(name.as_str()),
                value,
            ),
            CompiledMatcher::Method(methods) => {
                let r = text::has_text(methods, req.method);
                assert forall|c: MatchCondition| #[trigger] compiled_for(*self, c) implies r
                    == matching::condition_matches(c, req@) by {
                    let ms = c->Method_0;
                    let up = matching::upper_methods(ms@);
                    if r {
                        let i = choose|i: int| 0 <= i < up.len() && #[trigger] up[i] == req.method@;
                        assert(text::uppercase(ms@[i]@) == req@.method);
                    }
                    if matching::condition_matches(c, req@) {
                        let i = choose|i: int|
                            0 <= i < ms@.len() && text::uppercase(#[trigger] ms@[i]@)
                                == req@.method;
                        assert(up[i] == req.method@);
                    }
                }
                r
            },
            CompiledMatcher::QueryParam { name, value } => value_matches(
                req.query_params.get(name.as_str()),
                value,
            ),
        }
    }

    fn describe(&self) -> (r: String)
        ensures
            forall|c: MatchCondition| #[trigger]
                compiled_for(*self, c) ==> r@ == matching::describe(c),
    {
        match self {
            CompiledMatcher::Path(p) => {
                let mut out = "path == '".to_owned();
                out.append(p.as_str());
                out.append("'");
                out
            },
            CompiledMatcher::PathPrefix(p) => {
                let mut out = "path-prefix '".to_owned();
                out.append(p.as_str());
                out.append("'");
                out
            },
            CompiledMatcher::PathRegex { pattern, regex: _ } => {
                let mut out = "path-regex /".to_owned();
                out.append(pattern.as_str());
                out.append("/");
                out
            },
            CompiledMatcher::Host(_) => "host".to_owned(),
            CompiledMatcher::Header { name, value } => {
                let mut out = "header '".to_owned();
                out.append(name.as_str());
                match value {
                    Some(v) => {
                        out.append(": ");
                        out.append(v.as_str());
                        out.append("'");
                    },
                    None => {
                        out.append("' present");
                    },
                }
                out
            },
            CompiledMatcher::Method(methods) => {
                let mut out = "method in [".to_owned();
                let list = text::join_with(methods, ", ");
                out.append(list.as_str());
                out.append("]");
                out
            },
            CompiledMatcher::QueryParam { name, value } => {
                let mut out = "query '".to_owned();
                out.append(name.as_str());
                match value {
                    Some(v) => {
                        out.append("=");
                        out.append(v.as_str());
                        out.append("'");
                    },
                    None => {
                        out.append("' present");
                    },
                }
                out
            },
        }
    }
}

/// Method names in upper case.
pub fn upper_all(methods: &Vec<String>) -> (r: Vec<String>)
    ensures
        r.deep_view() == matching::upper_methods(methods@),
{
    let mut out: Vec<String> = Vec::new();
    let mut i: usize = 0;
    while i < methods.len()
        invariant
            i <= methods@.len(),
            out@.len() == i,
            forall|j: int| 0 <= j < i ==> (#[trigger] out@[j])@ == text::uppercase(methods@[j]@),
        decreases methods.len() - i,
    {
        out.push(text::upper(methods[i].as_str()));
        i = i + 1;
    }
    assert(out.deep_view() =~= matching::upper_methods(methods@));
    out
}

// ---------------------------------------------------------------------------
// Compiled routes
// ---------------------------------------------------------------------------

/// A route, ready to be evaluated.
struct CompiledRoute {
    config: Arc<RouteConfig>,
    id: RouteId,
    priority: Priority,
    matchers: Vec<CompiledMatcher>,
}

/// The first so many matchers stand for the conditions.
closed spec fn compiled_up_to(
    ms: Seq<CompiledMatcher>,
    cs: Seq<MatchCondition>,
    n: int,
) -> bool {
    forall|i: int| 0 <= i < n ==> compiled_for(#[trigger] ms[i], cs[i])
}

impl CompiledRoute {
    closed spec fn conf(&self) -> RouteConfig {
        *self.config
    }

    /// The parts are those of the configuration.
    closed spec fn wf(&self) -> bool {
        &&& self.id@ == self.config.id@
        &&& self.priority == self.config.priority
        &&& self.matchers@.len() == self.config.matches@.len()
        &&& compiled_up_to(self.matchers@, self.config.matches@, self.matchers@.len() as int)
    }

    fn compile(config: RouteConfig) -> (r: Result<CompiledRoute, RouteError>)
        ensures
            (match r {
                Ok(c) => c.wf() && *c.config == config && conditions_error(config.matches@) is None,
                Err(e) => {
                    &&& e matches RouteError::InvalidRegex { pattern, error }
                    &&& conditions_error(config.matches@) == Some((pattern@, error@))
                },
            }),
    {
        let mut matchers: Vec<CompiledMatcher> = Vec::new();
        let mut i: usize = 0;
        while i < config.matches.len()
            invariant
                i <= config.matches@.len(),
                matchers@.len() == i,
                compiled_up_to(matchers@, config.matches@, i as int),
                first_broken(config.matches@, 0) == first_broken(config.matches@, i as int),
            decreases config.matches.len() - i,
        {
            match CompiledMatcher::compile(&config.matches[i]) {
                Ok(m) => {
                    matchers.push(m);
                },
                Err(e) => {
                    return Err(e);
                },
            }
            i = i + 1;
        }
        let id = RouteId::new(config.id.clone());
        let priority = config.priority;
        Ok(CompiledRoute { config: Arc::new(config), id, priority, matchers })
    }

    fn matches(&self, req: &RequestInfo<'_>) -> (r: bool)
        requires
            self.wf(),
        ensures
            r == matching::route_matches(*self.config, req@),
    {
        let r = self.explain_match(req).is_none();
        proof {
            matching::reason_iff_no_match(self.config.matches@, req@);
        }
        r
    }

    /// Why the request is rejected; `None` if it matches.
    fn explain_match(&self, req: &RequestInfo<'_>) -> (r: Option<String>)
        requires
            self.wf(),
        ensures
            r.deep_view() == matching::reject_reason(self.config.matches@, req@),
    {
        let ghost cs = self.config.matches@;
        let mut has_host = false;
        let mut host_matched = false;
        let mut i: usize = 0;
        while i < self.matchers.len()
            invariant
                i <= self.matchers@.len(),
                self.wf(),
                cs == self.config.matches@,
                matching::first_failing(cs, req@, 0) == matching::first_failing(cs, req@, i as int),
                has_host == matching::has_host(cs.take(i as int)),
                host_matched == matching::some_host_matches(cs.take(i as int), req@),
            decreases self.matchers.len() - i,
        {
            let m = &self.matchers[i];
            assert(compiled_for(*m, cs[i as int]));
            let matched = m.matches(req);
            proof {
                lemma_host_step(cs, req@, i as int);
            }
            match m {
                CompiledMatcher::Host(_) => {
                    has_host = true;
                    if matched {
                        host_matched = true;
                    }
                },
                _ => {
                    if !matched {
                        let mut out = m.describe();
                        out.append(" did not match");
                        return Some(out);
                    }
                },
            }
            i = i + 1;
        }
        assert(cs.take(i as int) =~= cs);
        if has_host && !host_matched {
            let mut out = "no host condition matched host '".to_owned();
            out.append(req.host);
            out.append("'");
            return Some(out);
        }
        None
    }

    fn specificity(&self) -> (r: Specificity)
        requires
            self.wf(),
        ensures
            r@ == matching::specificity(*self.config),
    {
        let ghost cs = self.config.matches@;
        let mut out = Specificity { kind: 0, length: 0, host: 0, extra: 0 };
        let mut i: usize = 0;
        while i < self.matchers.len()
            invariant
                i <= self.matchers@.len(),
                self.wf(),
                cs == self.config.matches@,
                out@ == matching::ranks(cs.take(i as int)),
                out.extra <= 30 * i,
            decreases self.matchers.len() - i,
        {
            let m = &self.matchers[i];
            proof {
                assert(compiled_for(*m, cs[i as int]));
                assert(cs.take(i + 1).drop_last() =~= cs.take(i as int));
                assert(cs.take(i + 1).last() == cs[i as int]);
            }
            let (kind, length): (u8, usize) = match m {
                CompiledMatcher::Path(_) => (3, 0),
                CompiledMatcher::PathPrefix(p) => (2, p.as_str().as_bytes().len()),
                CompiledMatcher::PathRegex { .. } => (1, 0),
                _ => (0, 0),
            };
            let host: u32 = match m {
                CompiledMatcher::Host(HostMatcher::Exact(_)) => 70,
                CompiledMatcher::Host(HostMatcher::Regex(_)) => 60,
                CompiledMatcher::Host(HostMatcher::Wildcard { .. }) => 50,
                _ => 0,
            };
            let extra: u128 = match m {
                CompiledMatcher::Header { value, .. } => {
                    if value.is_some() {
                        30
                    } else {
                        20
                    }
                },
                CompiledMatcher::Method(_) => 10,
                CompiledMatcher::QueryParam { value, .. } => {
                    if value.is_some() {
                        25
                    } else {
                        15
                    }
                },
                _ => 0,
            };
            assert((Specificity { kind, length, host, extra })@ == matching::condition_rank(
                cs[i as int],
            ));
            if kind > out.kind || (kind == out.kind && length > out.length) {
                out.kind = kind;
                out.length = length;
            }
            if host > out.host {
                out.host = host;
            }
            out.extra = out.extra + extra;
            i = i + 1;
        }
        assert(cs.take(i as int) =~= cs);
        out
    }

    /// The number that reports give for the specificity.
    fn score(&self) -> (r: u32)
        requires
            self.wf(),
        ensures
            r == matching::score(*self.config),
    {
        let ghost cs = self.config.matches@;
        let mut best: u128 = 0;
        let mut i: usize = 0;
        while i < self.matchers.len()
            invariant
                i <= self.matchers@.len(),
                self.wf(),
                cs == self.config.matches@,
                best == matching::best_path_score(cs.take(i as int)),
                best < 0x1_0000_0000,
            decreases self.matchers.len() - i,
        {
            let m = &self.matchers[i];
            proof {
                assert(compiled_for(*m, cs[i as int]));
                assert(cs.take(i + 1).drop_last() =~= cs.take(i as int));
                assert(cs.take(i + 1).last() == cs[i as int]);
            }
            let path: u128 = match m {
                CompiledMatcher::Path(_) => 10000,
                CompiledMatcher::PathRegex { .. } => 5000,
                CompiledMatcher::PathPrefix(p) => {
                    (1000 + p.as_str().as_bytes().len() as u128) % 0x1_0000_0000
                },
                _ => 0,
            };
            assert(path == matching::path_score(cs[i as int]));
            if path > best {
                best = path;
            }
            i = i + 1;
        }
        assert(cs.take(i as int) =~= cs);
        let s = self.specificity();
        let extra: u128 = s.extra % 0x1_0000_0000;
        ((best + s.host as u128 + extra) % 0x1_0000_0000) as u32
    }
}

/// How specific a route is: by path, then by host, then by the other conditions.
#[derive(Debug, Clone, Copy, PartialEq, Eq, Structural)]
pub struct Specificity {
    kind: u8,
    length: usize,
    host: u32,
    extra: u128,
}

impl View for Specificity {
    type V = matching::Specificity;

    closed spec fn view(&self) -> matching::Specificity {
        matching::Specificity {
            kind: self.kind as int,
            length: self.length as int,
            host: self.host as int,
            extra: self.extra as int,
        }
    }
}

impl Specificity {
    /// This is more specific than another.
    pub fn exceeds(&self, other: &Specificity) -> (r: bool)
        ensures
            r == matching::more_specific(self@, other@),
    {
        if self.kind != other.kind {
            self.kind > other.kind
        } else if self.length != other.length {
            self.length > other.length
        } else if self.host != other.host {
            self.host > other.host
        } else {
            self.extra > other.extra
        }
    }
}

proof fn lemma_host_step(cs: Seq<MatchCondition>, q: Request, i: int)
    requires
        0 <= i < cs.len(),
    ensures
        matching::has_host(cs.take(i + 1)) == (matching::has_host(cs.take(i)) || cs[i] is Host),
        matching::some_host_matches(cs.take(i + 1), q) == (matching::some_host_matches(
            cs.take(i),
            q,
        ) || (cs[i] is Host && matching::condition_matches(cs[i], q))),
{
    let a = cs.take(i);
    let b = cs.take(i + 1);
    assert(b[i] == cs[i]);
    assert forall|j: int| 0 <= j < i implies a[j] == b[j] by {}
    if matching::has_host(a) {
        let j = choose|j: int| 0 <= j < a.len() && (#[trigger] a[j]) is Host;
        assert(b[j] is Host);
    }
    if matching::has_host(b) {
        let j = choose|j: int| 0 <= j < b.len() && (#[trigger] b[j]) is Host;
        if j < i {
            assert(a[j] is Host);
        }
    }
    if matching::some_host_matches(a, q) {
        let j = choose|j: int|
            0 <= j < a.len() && (#[trigger] a[j]) is Host && matching::condition_matches(a[j], q);
        assert(b[j] is Host && matching::condition_matches(b[j], q));
    }
    if matching::some_host_matches(b, q) {
        let j = choose|j: int|
            0 <= j < b.len() && (#[trigger] b[j]) is Host && matching::condition_matches(b[j], q);
        if j < i {
            assert(a[j] is Host && matching::condition_matches(a[j], q));
        }
    }
}

/// `Arc::clone`: another handle to the same value.
#[verifier::external_body]
fn share(config: &Arc<RouteConfig>) -> (r: Arc<RouteConfig>)
    ensures
        *r == **config,
{
    Arc::clone(config)
}

// ---------------------------------------------------------------------------
// The matcher
// ---------------------------------------------------------------------------

/// The route of a request.
#[derive(Debug)]
pub struct RouteMatch {
    /// Identifier of the route.
    pub route_id: RouteId,
    /// Its configuration.
    pub config: Arc<RouteConfig>,
}

impl RouteMatch {
    /// The policies of the route.
    pub fn policies(&self) -> (r: &RoutePolicies)
        ensures
            *r == self.config.policies,
    {
        &self.config.policies
    }
}

/// The match is the route at an index of the table; no match without one.
pub open spec fn is_route(m: Option<RouteMatch>, table: Seq<RouteConfig>, k: Option<int>) -> bool {
    match k {
        Some(i) => m matches Some(x) && *x.config == table[i] && x.route_id@ == table[i].id@,
        None => m is None,
    }
}

/// Selects routes for requests.
pub struct RouteMatcher {
    routes: Vec<CompiledRoute>,
    default_route: Option<RouteId>,
    cache: RouteCache,
    needs_headers: bool,
    needs_query_params: bool,
}

closed spec fn table_of(routes: Seq<CompiledRoute>) -> Seq<RouteConfig> {
    routes.map_values(|r: CompiledRoute| *r.config)
}

impl RouteMatcher {
    /// The routes in evaluation order.
    pub closed spec fn table(&self) -> Seq<RouteConfig> {
        table_of(self.routes@)
    }

    /// Identifier of the default route.
    pub closed spec fn default_id(&self) -> Option<Seq<char>> {
        match self.default_route {
            Some(id) => Some(id@),
            None => None,
        }
    }

    /// The cached decisions.
    pub closed spec fn cached(&self) -> Map<Seq<char>, Seq<char>> {
        self.cache.contents()
    }

    /// The cache.
    pub closed spec fn route_cache(&self) -> RouteCache {
        self.cache
    }

    /// The compiled routes are those of the table, and the cache holds the
    /// decisions of evaluation.
    pub closed spec fn wf(&self) -> bool {
        &&& forall|i: int| 0 <= i < self.routes@.len() ==> (#[trigger] self.routes@[i]).wf()
        &&& self.cache.wf()
        &&& cache_sound(self.table(), self.cached())
        &&& self.needs_headers == reads_headers(self.table())
        &&& self.needs_query_params == reads_query(self.table())
    }

    /// A matcher with a cache of the default size.
    pub fn new(routes: Vec<RouteConfig>, default_route: Option<String>) -> (r: Result<
        RouteMatcher,
        RouteError,
    >)
        ensures
            (match r {
                Ok(m) => {
                    &&& m.wf()
                    &&& routes_error(routes@) is None
                    &&& m.table() == matching::ranked(routes@)
                    &&& m.default_id() == default_route.deep_view()
                    &&& m.cached() == cache::no_entries()
                    &&& m.route_cache().limit() == DEFAULT_CACHE_SIZE
                    &&& m.route_cache().hit_count() == 0
                    &&& m.route_cache().miss_count() == 0
                    &&& m.route_cache().eviction_count() == 0
                },
                Err(e) => {
                    &&& e matches RouteError::InvalidRegex { pattern, error }
                    &&& routes_error(routes@) == Some((pattern@, error@))
                },
            }),
    {
        Self::with_cache_size(routes, default_route, DEFAULT_CACHE_SIZE)
    }

    /// A matcher with a cache of a given size. The only error is a path pattern
    /// that does not compile.
    pub fn with_cache_size(
        routes: Vec<RouteConfig>,
        default_route: Option<String>,
        cache_size: usize,
    ) -> (r: Result<RouteMatcher, RouteError>)
        ensures
            (match r {
                Ok(m) => {
                    &&& m.wf()
                    &&& routes_error(routes@) is None
                    &&& m.table() == matching::ranked(routes@)
                    &&& m.default_id() == default_route.deep_view()
                    &&& m.cached() == cache::no_entries()
                    &&& m.route_cache().limit() == cache_size
                    &&& m.route_cache().hit_count() == 0
                    &&& m.route_cache().miss_count() == 0
                    &&& m.route_cache().eviction_count() == 0
                },
                Err(e) => {
                    &&& e matches RouteError::InvalidRegex { pattern, error }
                    &&& routes_error(routes@) == Some((pattern@, error@))
                },
            }),
    {
        let ghost all = routes@;
        let mut compiled: Vec<CompiledRoute> = Vec::new();
        assert(table_of(compiled@) =~= matching::ranked(all.take(0)));
        for route in it: routes
            invariant
                it.seq() == all,
                table_of(compiled@) == matching::ranked(all.take(it.index() as int)),
                routes_error(all.take(it.index() as int)) is None,
                forall|i: int| 0 <= i < compiled@.len() ==> (#[trigger] compiled@[i]).wf(),
        {
            let ghost n = it.index() as int;
            proof {
                assert(all.take(n + 1).drop_last() =~= all.take(n));
                assert(all.take(n + 1).last() == all[n]);
            }
            match CompiledRoute::compile(route) {
                Ok(c) => {
                    insert_by_rank(&mut compiled, c);
                    assert(table_of(compiled@) == matching::ranked(all.take(n + 1)));
                },
                Err(e) => {
                    proof {
                        lemma_routes_error_prefix(all, n + 1);
                    }
                    return Err(e);
                },
            }
        }
        assert(all.take(all.len() as int) =~= all);
        let needs_headers = any_header(&compiled);
        let needs_query_params = any_query_param(&compiled);
        let default_route = match default_route {
            Some(id) => Some(RouteId::new(id)),
            None => None,
        };
        Ok(
            RouteMatcher {
                routes: compiled,
                default_route,
                cache: RouteCache::new(cache_size),
                needs_headers,
                needs_query_params,
            },
        )
    }

    /// Some route has a condition on a header.
    pub fn needs_headers(&self) -> (r: bool)
        requires
            self.wf(),
        ensures
            r == reads_headers(self.table()),
    {
        self.needs_headers
    }

    /// Some route has a condition on a query parameter.
    pub fn needs_query_params(&self) -> (r: bool)
        requires
            self.wf(),
        ensures
            r == reads_query(self.table()),
    {
        self.needs_query_params
    }

    /// The route of a request. A decision by evaluation is cached; a default
    /// route is not. Whatever was asked before, the answer is the one that
    /// evaluation, and so an explanation, gives.
    pub fn match_request(&mut self, req: &RequestInfo<'_>) -> (r: Option<RouteMatch>)
        requires
            old(self).wf(),
        ensures
            final(self).wf(),
            final(self).table() == old(self).table(),
            final(self).default_id() == old(self).default_id(),
            final(self).route_cache().limit() == old(self).route_cache().limit(),
            is_route(
                r,
                old(self).table(),
                live(old(self).table(), old(self).default_id(), old(self).cached(), req@),
            ),
            (if !cached(old(self).table(), old(self).cached(), req@) && matching::first_match(
                old(self).table(),
                req@,
                0,
            ) < old(self).table().len() {
                cache::inserted(
                    old(self).cached(),
                    old(self).route_cache().limit(),
                    request::cache_key(req@),
                    old(self).table()[matching::first_match(old(self).table(), req@, 0)].id@,
                    final(self).cached(),
                )
            } else {
                final(self).cached() == old(self).cached()
            }),
            final(self).route_cache().hit_count() as int == (old(self).route_cache().hit_count() + (
            if old(self).cached().contains_key(request::cache_key(req@)) {
                1int
            } else {
                0int
            })) % 0x1_0000_0000_0000_0000,
            final(self).route_cache().miss_count() as int == (old(self).route_cache().miss_count()
                + (if cached(old(self).table(), old(self).cached(), req@) {
                0int
            } else {
                1int
            })) % 0x1_0000_0000_0000_0000,
            final(self).route_cache().eviction_count() as int == (
            old(self).route_cache().eviction_count() + (if !cached(
                old(self).table(),
                old(self).cached(),
                req@,
            ) && matching::first_match(old(self).table(), req@, 0) < old(self).table().len() {
                cache::dropped(old(self).cached(), old(self).route_cache().limit())
            } else {
                0
            })) % 0x1_0000_0000_0000_0000,
            (match matching::decide(old(self).table(), old(self).default_id(), req@) {
                Some(k) => r matches Some(m) && m.route_id@ == old(self).table()[k].id@,
                None => r is None,
            }),
            distinct_ids(old(self).table()) ==> is_route(
                r,
                old(self).table(),
                matching::decide(old(self).table(), old(self).default_id(), req@),
            ),
    {
        let ghost table = self.table();
        let ghost default = self.default_id();
        let ghost entries = self.cached();
        let ghost q = req@;
        let key = req.cache_key();
        proof {
            live_route_is_explained_winner(table, default, entries, q);
            matching::lemma_first_match(table, q, 0);
        }
        let cached_id = self.cache.get(key.as_str());
        if let Some(id) = cached_id {
            let k = self.find_route_by_id(id.as_str());
            if k < self.routes.len() {
                let route = &self.routes[k];
                assert(table[k as int] == *route.config);
                return Some(
                    RouteMatch { route_id: RouteId::new(id), config: share(&route.config) },
                );
            }
        }
        self.cache.record_miss();
        let k = self.first_match(req);
        if k < self.routes.len() {
            let route_id = self.routes[k].id.copy();
            let config = share(&self.routes[k].config);
            assert(table[k as int] == *config && route_id@ == table[k as int].id@);
            let cached_text = self.routes[k].id.id.clone();
            self.cache.insert(key, cached_text);
            proof {
                caching_keeps_soundness(
                    table,
                    entries,
                    self.cache.limit(),
                    q,
                    self.cache.contents(),
                );
            }
            return Some(RouteMatch { route_id, config });
        }
        if let Some(default_id) = &self.default_route {
            let d = self.find_route_by_id(default_id.as_str());
            if d < self.routes.len() {
                let route = &self.routes[d];
                assert(table[d as int] == *route.config);
                return Some(
                    RouteMatch { route_id: default_id.copy(), config: share(&route.config) },
                );
            }
        }
        None
    }

    /// How every route fares with a request. The cache is neither read nor
    /// written.
    pub fn explain_request(&self, req: &RequestInfo<'_>) -> (r: ExplainTrace)
        requires
            self.wf(),
        ensures
            r.evaluations@.len() == self.table().len(),
            forall|i: int|
                0 <= i < self.table().len() ==> evaluation_of(
                    #[trigger] r.evaluations@[i],
                    self.table()[i],
                    req@,
                ),
            (match (r.winner, matching::decide(self.table(), self.default_id(), req@)) {
                (Some(w), Some(k)) => w == k && 0 <= k < self.table().len(),
                (None, None) => true,
                _ => false,
            }),
            r.used_default == (r.winner is Some && matching::first_match(self.table(), req@, 0)
                >= self.table().len()),
    {
        let ghost table = self.table();
        let mut evaluations: Vec<RouteEvaluation> = Vec::new();
        let mut winner: Option<usize> = None;
        let mut i: usize = 0;
        proof {
            matching::lemma_first_match(table, req@, 0);
        }
        while i < self.routes.len()
            invariant
                i <= self.routes@.len(),
                self.wf(),
                table == self.table(),
                evaluations@.len() == i,
                forall|j: int|
                    0 <= j < i ==> evaluation_of(#[trigger] evaluations@[j], table[j], req@),
                (match winner {
                    Some(w) => w < i && w == matching::first_match(table, req@, 0),
                    None => matching::first_match(table, req@, 0) == matching::first_match(
                        table,
                        req@,
                        i as int,
                    ),
                }),
            decreases self.routes.len() - i,
        {
            let route = &self.routes[i];
            assert(table[i as int] == *route.config);
            let reject_reason = route.explain_match(req);
            let matched = reject_reason.is_none();
            proof {
                matching::reason_iff_no_match(table[i as int].matches@, req@);
            }
            if matched && winner.is_none() {
                winner = Some(i);
            }
            evaluations.push(
                RouteEvaluation {
                    id: route.id.copy(),
                    priority: route.priority,
                    specificity: route.score(),
                    matched,
                    reject_reason,
                },
            );
            i = i + 1;
        }
        let mut used_default = false;
        if winner.is_none() {
            if let Some(default_id) = &self.default_route {
                proof {
                    matching::lemma_find_id(table, default_id@, 0);
                }
                let d = self.find_route_by_id(default_id.as_str());
                if d < self.routes.len() {
                    winner = Some(d);
                    used_default = true;
                }
            }
        }
        ExplainTrace { evaluations, winner, used_default }
    }

    /// Index of the first route that matches, or the number of routes.
    fn first_match(&self, req: &RequestInfo<'_>) -> (r: usize)
        requires
            self.wf(),
        ensures
            r == matching::first_match(self.table(), req@, 0),
            r <= self.routes@.len(),
    {
        let ghost table = self.table();
        let mut i: usize = 0;
        while i < self.routes.len()
            invariant
                i <= self.routes@.len(),
                self.wf(),
                table == self.table(),
                matching::first_match(table, req@, 0) == matching::first_match(
                    table,
                    req@,
                    i as int,
                ),
            decreases self.routes.len() - i,
        {
            assert(table[i as int] == *self.routes@[i as int].config);
            if self.routes[i].matches(req) {
                return i;
            }
            i = i + 1;
        }
        i
    }

    /// Index of the first route with an identifier, or the number of routes.
    fn find_route_by_id(&self, id: &str) -> (r: usize)
        requires
            self.wf(),
        ensures
            r == matching::find_id(self.table(), id@, 0),
            r <= self.routes@.len(),
            r < self.routes@.len() ==> self.table()[r as int].id@ == id@,
    {
        let ghost table = self.table();
        let mut i: usize = 0;
        while i < self.routes.len()
            invariant
                i <= self.routes@.len(),
                self.wf(),
                table == self.table(),
                matching::find_id(table, id@, 0) == matching::find_id(table, id@, i as int),
            decreases self.routes.len() - i,
        {
            assert(table[i as int] == *self.routes@[i as int].config);
            assert(self.routes@[i as int].wf());
            if text::same(self.routes[i].id.as_str(), id) {
                return i;
            }
            i = i + 1;
        }
        i
    }

    /// Forgets all cached decisions.
    pub fn clear_cache(&mut self)
        requires
            old(self).wf(),
        ensures
            final(self).wf(),
            final(self).table() == old(self).table(),
            final(self).default_id() == old(self).default_id(),
            final(self).cached() == cache::no_entries(),
            final(self).route_cache().limit() == old(self).route_cache().limit(),
            final(self).route_cache().hit_count() == old(self).route_cache().hit_count(),
            final(self).route_cache().miss_count() == old(self).route_cache().miss_count(),
            final(self).route_cache().eviction_count() == old(self).route_cache().eviction_count(),
    {
        self.cache.clear();
    }

    /// Statistics of the cache.
    pub fn cache_stats(&self) -> (r: CacheStats)
        requires
            self.wf(),
        ensures
            r.entries == self.cached().len(),
            r.max_size == self.route_cache().limit(),
            r.hits == self.route_cache().hit_count(),
            r.misses == self.route_cache().miss_count(),
            r.evictions == self.route_cache().eviction_count(),
    {
        self.cache.stats()
    }
}

/// Inserts a route behind all that it does not outrank.
fn insert_by_rank(routes: &mut Vec<CompiledRoute>, route: CompiledRoute)
    requires
        route.wf(),
        forall|i: int| 0 <= i < old(routes)@.len() ==> (#[trigger] old(routes)@[i]).wf(),
    ensures
        forall|i: int| 0 <= i < final(routes)@.len() ==> (#[trigger] final(routes)@[i]).wf(),
        table_of(final(routes)@) == table_of(old(routes)@).insert(
            matching::slot(table_of(old(routes)@), *route.config, 0),
            *route.config,
        ),
{
    let ghost before = routes@;
    let ghost table = table_of(before);
    let ghost cfg = route.conf();
    let specificity = route.specificity();
    let mut i: usize = 0;
    while i < routes.len() && !(route.priority.weight > routes[i].priority.weight || (
    route.priority.weight == routes[i].priority.weight && specificity.exceeds(
        &routes[i].specificity(),
    )))
        invariant
            i <= routes@.len(),
            routes@ == before,
            route.wf(),
            cfg == *route.config,
            specificity@ == matching::specificity(cfg),
            forall|j: int| 0 <= j < before.len() ==> (#[trigger] before[j]).wf(),
            table == table_of(before),
            matching::slot(table, cfg, 0) == matching::slot(table, cfg, i as int),
        decreases routes.len() - i,
    {
        assert(table[i as int] == *before[i as int].config);
        i = i + 1;
    }
    proof {
        if i < routes@.len() {
            assert(table[i as int] == *before[i as int].config);
        }
    }
    routes.insert(i, route);
    proof {
        assert(table_of(routes@) =~= table.insert(i as int, cfg));
        assert forall|j: int| 0 <= j < routes@.len() implies (#[trigger] routes@[j]).wf() by {
            if j < i {
                assert(routes@[j] == before[j]);
            } else if j > i {
                assert(routes@[j] == before[j - 1]);
            }
        }
    }
}

/// Some route has a condition on a header.
fn any_header(routes: &Vec<CompiledRoute>) -> (r: bool)
    requires
        forall|i: int| 0 <= i < routes@.len() ==> (#[trigger] routes@[i]).wf(),
    ensures
        r == reads_headers(table_of(routes@)),
{
    let ghost table = table_of(routes@);
    let mut i: usize = 0;
    while i < routes.len()
        invariant
            i <= routes@.len(),
            table == table_of(routes@),
            forall|k: int| 0 <= k < routes@.len() ==> (#[trigger] routes@[k]).wf(),
            forall|k: int, j: int|
                0 <= k < i && 0 <= j < table[k].matches@.len() ==> !(#[trigger] table[k].matches@[j]
                    is Header),
        decreases routes.len() - i,
    {
        assert(table[i as int] == *routes@[i as int].config);
        assert(routes@[i as int].wf());
        let mut j: usize = 0;
        while j < routes[i].matchers.len()
            invariant
                i < routes@.len(),
                table == table_of(routes@),
                table[i as int] == *routes@[i as int].config,
                routes@[i as int].wf(),
                j <= routes@[i as int].matchers@.len(),
                forall|k: int|
                    0 <= k < j ==> !(#[trigger] table[i as int].matches@[k] is Header),
            decreases routes[i as int].matchers.len() - j,
        {
            assert(compiled_for(routes@[i as int].matchers@[j as int], table[i as int].matches@[j as int]));
            match &routes[i].matchers[j] {
                CompiledMatcher::Header { .. } => {
                    return true;
                },
                _ => {},
            }
            j = j + 1;
        }
        i = i + 1;
    }
    false
}

/// Some route has a condition on a query parameter.
fn any_query_param(routes: &Vec<CompiledRoute>) -> (r: bool)
    requires
        forall|i: int| 0 <= i < routes@.len() ==> (#[trigger] routes@[i]).wf(),
    ensures
        r == reads_query(table_of(routes@)),
{
    let ghost table = table_of(routes@);
    let mut i: usize = 0;
    while i < routes.len()
        invariant
            i <= routes@.len(),
            table == table_of(routes@),
            forall|k: int| 0 <= k < routes@.len() ==> (#[trigger] routes@[k]).wf(),
            forall|k: int, j: int|
                0 <= k < i && 0 <= j < table[k].matches@.len() ==> !(#[trigger] table[k].matches@[j]
                    is QueryParam),
        decreases routes.len() - i,
    {
        assert(table[i as int] == *routes@[i as int].config);
        assert(routes@[i as int].wf());
        let mut j: usize = 0;
        while j < routes[i].matchers.len()
            invariant
                i < routes@.len(),
                table == table_of(routes@),
                table[i as int] == *routes@[i as int].config,
                routes@[i as int].wf(),
                j <= routes@[i as int].matchers@.len(),
                forall|k: int|
                    0 <= k < j ==> !(#[trigger] table[i as int].matches@[k] is QueryParam),
            decreases routes[i as int].matchers.len() - j,
        {
            assert(compiled_for(routes@[i as int].matchers@[j as int], table[i as int].matches@[j as int]));
            match &routes[i].matchers[j] {
                CompiledMatcher::QueryParam { .. } => {
                    return true;
                },
                _ => {},
            }
            j = j + 1;
        }
        i = i + 1;
    }
    false
}

// ---------------------------------------------------------------------------
// Explanations
// ---------------------------------------------------------------------------

/// How one route fares with a request.
#[derive(Debug, Clone)]
pub struct RouteEvaluation {
    /// Identifier of the route.
    pub id: RouteId,
    /// Its priority.
    pub priority: Priority,
    /// Its specificity as a number: the sum of its parts. Routes of one priority are
    /// ordered by path, then by host, then by the rest, and not by this number: a route
    /// may come before one with a larger number.
    pub specificity: u32,
    /// Whether it matches.
    pub matched: bool,
    /// Why it does not match.
    pub reject_reason: Option<String>,
}

/// The evaluation is that of a route.
pub open spec fn evaluation_of(e: RouteEvaluation, r: RouteConfig, q: Request) -> bool {
    &&& e.id@ == r.id@
    &&& e.priority == r.priority
    &&& e.specificity == matching::score(r)
    &&& e.matched == matching::route_matches(r, q)
    &&& e.reject_reason.deep_view() == matching::reject_reason(r.matches@, q)
}

/// How all routes fare with a request, in evaluation order.
#[derive(Debug, Clone)]
pub struct ExplainTrace {
    /// Every route.
    pub evaluations: Vec<RouteEvaluation>,
    /// Index of the route that wins.
    pub winner: Option<usize>,
    /// The winner is the default route, and no route matches.
    pub used_default: bool,
}

/// The evaluations that matched, but for the one at `win`.
pub open spec fn beaten(evaluations: Seq<RouteEvaluation>, win: int) -> Seq<RouteEvaluation>
    decreases evaluations.len(),
{
    if evaluations.len() == 0 {
        Seq::empty()
    } else {
        let rest = beaten(evaluations.drop_last(), win);
        if evaluations.len() - 1 != win && evaluations.last().matched {
            rest.push(evaluations.last())
        } else {
            rest
        }
    }
}

impl ExplainTrace {
    /// The winner, if there is one.
    pub fn winner(&self) -> (r: Option<&RouteEvaluation>)
        requires
            self.winner matches Some(i) ==> i < self.evaluations@.len(),
        ensures
            (match self.winner {
                Some(i) => r == Some(&self.evaluations@[i as int]),
                None => r is None,
            }),
    {
        match self.winner {
            Some(i) => Some(&self.evaluations[i]),
            None => None,
        }
    }

    /// The routes that match as well but lose to the winner, in evaluation order.
    pub fn beaten(&self) -> (r: Vec<&RouteEvaluation>)
        ensures
            r@.map_values(|e: &RouteEvaluation| *e) == (match self.winner {
                Some(i) => beaten(self.evaluations@, i as int),
                None => Seq::empty(),
            }),
    {
        let mut out: Vec<&RouteEvaluation> = Vec::new();
        let ghost f = |e: &RouteEvaluation| *e;
        assert(out@.map_values(f) =~= Seq::empty());
        let win: usize = match self.winner {
            Some(i) => i,
            None => {
                return out;
            },
        };
        let mut i: usize = 0;
        let ghost all = self.evaluations@;
        while i < self.evaluations.len()
            invariant
                i <= self.evaluations@.len(),
                all == self.evaluations@,
                f == (|e: &RouteEvaluation| *e),
                out@.map_values(f) == beaten(all.take(i as int), win as int),
            decreases self.evaluations.len() - i,
        {
            let e = &self.evaluations[i];
            assert(all.take(i + 1).drop_last() =~= all.take(i as int));
            assert(all.take(i + 1).last() == *e);
            if i != win && e.matched {
                let ghost before = out@;
                out.push(e);
                assert(out@.map_values(f) =~= before.map_values(f).push(*e));
            }
            i = i + 1;
        }
        assert(all.take(i as int) =~= all);
        out
    }
}

/// A default route beats nothing: no route matches.
pub proof fn default_beats_nothing(evaluations: Seq<RouteEvaluation>, win: int)
    requires
        forall|i: int| 0 <= i < evaluations.len() ==> !(#[trigger] evaluations[i]).matched,
    ensures
        beaten(evaluations, win) == Seq::<RouteEvaluation>::empty(),
    decreases evaluations.len(),
{
    if evaluations.len() > 0 {
        assert forall|i: int| 0 <= i < evaluations.drop_last().len() implies !(
        #[trigger] evaluations.drop_last()[i]).matched by {
            assert(evaluations.drop_last()[i] == evaluations[i]);
        }
        default_beats_nothing(evaluations.drop_last(), win);
        assert(!evaluations[evaluations.len() - 1].matched);
    }
}

// ---------------------------------------------------------------------------
// Laws
// ---------------------------------------------------------------------------

/// Where no condition reads headers, the headers of a request make no difference, and
/// likewise for parameters.
pub proof fn unread_parts_make_no_difference(
    table: Seq<RouteConfig>,
    default: Option<Seq<char>>,
    p: Request,
    q: Request,
)
    requires
        p.method == q.method,
        p.path == q.path,
        p.host == q.host,
        reads_headers(table) ==> p.headers == q.headers,
        reads_query(table) ==> p.query == q.query,
    ensures
        matching::decide(table, default, p) == matching::decide(table, default, q),
{
    matching::lemma_first_match(table, p, 0);
    matching::lemma_first_match(table, q, 0);
    assert forall|i: int| 0 <= i < table.len() implies matching::route_matches(
        #[trigger] table[i],
        p,
    ) == matching::route_matches(table[i], q) by {
        let cs = table[i].matches@;
        assert forall|j: int| 0 <= j < cs.len() implies matching::condition_matches(
            #[trigger] cs[j],
            p,
        ) == matching::condition_matches(cs[j], q) by {
            assert(cs[j] == table[i].matches@[j]);
            if cs[j] is Header {
                assert(table[i].matches@[j] is Header);
                assert(reads_headers(table));
            }
            if cs[j] is QueryParam {
                assert(table[i].matches@[j] is QueryParam);
                assert(reads_query(table));
            }
        }
        if matching::some_host_matches(cs, p) {
            let j = choose|j: int|
                0 <= j < cs.len() && (#[trigger] cs[j]) is Host && matching::condition_matches(
                    cs[j],
                    p,
                );
            assert(matching::condition_matches(cs[j], q));
        }
        if matching::some_host_matches(cs, q) {
            let j = choose|j: int|
                0 <= j < cs.len() && (#[trigger] cs[j]) is Host && matching::condition_matches(
                    cs[j],
                    q,
                );
            assert(matching::condition_matches(cs[j], p));
        }
        if matching::others_match(cs, p) {
            assert forall|j: int| 0 <= j < cs.len() && !((#[trigger] cs[j]) is Host) implies matching::condition_matches(
                cs[j],
                q,
            ) by {
                assert(matching::condition_matches(cs[j], p));
            }
        }
        if matching::others_match(cs, q) {
            assert forall|j: int| 0 <= j < cs.len() && !((#[trigger] cs[j]) is Host) implies matching::condition_matches(
                cs[j],
                p,
            ) by {
                assert(matching::condition_matches(cs[j], q));
            }
        }
    }
    let a = matching::first_match(table, p, 0);
    let b = matching::first_match(table, q, 0);
    if a < b {
        assert(matching::route_matches(table[a], q));
    }
    if b < a {
        assert(matching::route_matches(table[b], p));
    }
}

/// A table reads the headers, or the parameters, only if one of its routes has such a
/// condition; one condition is enough.
pub proof fn one_condition_is_enough_to_read(table: Seq<RouteConfig>, r: RouteConfig, c: MatchCondition)
    requires
        r.matches@.contains(c),
        table.contains(r),
    ensures
        c is Header ==> reads_headers(table),
        c is QueryParam ==> reads_query(table),
        !reads_headers(Seq::empty()),
        !reads_query(Seq::empty()),
{
    let i = choose|i: int| 0 <= i < table.len() && table[i] == r;
    let j = choose|j: int| 0 <= j < r.matches@.len() && r.matches@[j] == c;
    assert(table[i].matches@[j] == c);
}

proof fn lemma_first_broken(cs: Seq<MatchCondition>, from: int)
    requires
        0 <= from <= cs.len(),
    ensures
        from <= first_broken(cs, from) <= cs.len(),
        first_broken(cs, from) < cs.len() ==> broken(cs[first_broken(cs, from)]),
        forall|j: int| from <= j < first_broken(cs, from) ==> !broken(#[trigger] cs[j]),
    decreases cs.len() - from,
{
    if from < cs.len() && !broken(cs[from]) {
        lemma_first_broken(cs, from + 1);
    }
}

/// The routes are refused exactly if a path pattern of one of them does not compile. The
/// error is that of the first such pattern.
pub proof fn first_bad_pattern_is_the_error(routes: Seq<RouteConfig>)
    ensures
        routes_error(routes) is Some <==> exists|i: int, j: int|
            0 <= i < routes.len() && 0 <= j < routes[i].matches@.len() && bad_pattern(
                #[trigger] routes[i].matches@[j],
            ),
        routes_error(routes) matches Some(e) ==> exists|i: int, j: int|
            0 <= i < routes.len() && 0 <= j < routes[i].matches@.len() && bad_pattern(
                #[trigger] routes[i].matches@[j],
            ) && e.0 == routes[i].matches@[j]->PathRegex_0@ && pattern::regex_error(e.0) == Some(e.1)
                && (forall|k: int| 0 <= k < j ==> !bad_pattern(#[trigger] routes[i].matches@[k]))
                && (forall|h: int, k: int|
                0 <= h < i && 0 <= k < routes[h].matches@.len() ==> !bad_pattern(
                    #[trigger] routes[h].matches@[k],
                )),
    decreases routes.len(),
{
    if routes.len() > 0 {
        let init = routes.drop_last();
        first_bad_pattern_is_the_error(init);
        let cs = routes.last().matches@;
        let last = routes.len() - 1;
        lemma_first_broken(cs, 0);
        assert forall|h: int| 0 <= h < last implies init[h] == #[trigger] routes[h] by {}
        if routes_error(init) is Some {
            let e = routes_error(init)->0;
            let (i, j) = choose|i: int, j: int|
                0 <= i < init.len() && 0 <= j < init[i].matches@.len() && bad_pattern(
                    #[trigger] init[i].matches@[j],
                ) && e.0 == init[i].matches@[j]->PathRegex_0@ && pattern::regex_error(e.0) == Some(
                    e.1,
                ) && (forall|k: int| 0 <= k < j ==> !bad_pattern(#[trigger] init[i].matches@[k]))
                    && (forall|h: int, k: int|
                    0 <= h < i && 0 <= k < init[h].matches@.len() ==> !bad_pattern(
                        #[trigger] init[h].matches@[k],
                    ));
            assert(routes[i] == init[i]);
            assert(bad_pattern(routes[i].matches@[j]));
            assert forall|h: int, k: int|
                0 <= h < i && 0 <= k < routes[h].matches@.len() implies !bad_pattern(
                #[trigger] routes[h].matches@[k],
            ) by {
                assert(init[h] == routes[h]);
                assert(!bad_pattern(init[h].matches@[k]));
            }
        } else {
            assert forall|h: int, k: int|
                0 <= h < last && 0 <= k < routes[h].matches@.len() implies !bad_pattern(
                #[trigger] routes[h].matches@[k],
            ) by {
                assert(init[h] == routes[h]);
                assert(!bad_pattern(init[h].matches@[k]));
            }
            let j = first_broken(cs, 0);
            if j < cs.len() {
                assert(bad_pattern(routes[last].matches@[j]));
                assert forall|k: int| 0 <= k < j implies !bad_pattern(
                    #[trigger] routes[last].matches@[k],
                ) by {
                    assert(!broken(cs[k]));
                }
            } else {
                assert forall|k: int| 0 <= k < cs.len() implies !bad_pattern(
                    #[trigger] routes[last].matches@[k],
                ) by {
                    assert(!broken(cs[k]));
                }
            }
        }
    }
}

/// The condition is a path pattern that does not compile.
pub open spec fn bad_pattern(c: MatchCondition) -> bool {
    c is PathRegex && pattern::regex_error(c->PathRegex_0@) is Some
}

/// The routes that the winner beats are all others that match, in evaluation order.
pub proof fn winner_beats_all_others_that_match(evaluations: Seq<RouteEvaluation>, win: int)
    requires
        0 <= win < evaluations.len(),
    ensures
        beaten(evaluations, win) == (evaluations.take(win) + evaluations.skip(win + 1)).filter(
            |e: RouteEvaluation| e.matched,
        ),
{
    let p = |e: RouteEvaluation| e.matched;
    lemma_beaten_before(evaluations, evaluations.len() as int, win);
    assert(evaluations.take(evaluations.len() as int) =~= evaluations);
}

proof fn lemma_beaten_before(evaluations: Seq<RouteEvaluation>, n: int, win: int)
    requires
        0 <= n <= evaluations.len(),
        0 <= win < evaluations.len(),
    ensures
        n <= win ==> beaten(evaluations.take(n), win) == evaluations.take(n).filter(
            |e: RouteEvaluation| e.matched,
        ),
        n > win ==> beaten(evaluations.take(n), win) == (evaluations.take(win)
            + evaluations.subrange(win + 1, n)).filter(|e: RouteEvaluation| e.matched),
    decreases n,
{
    let p = |e: RouteEvaluation| e.matched;
    reveal(Seq::filter);
    if n > 0 {
        lemma_beaten_before(evaluations, n - 1, win);
        let part = evaluations.take(n);
        assert(part.drop_last() =~= evaluations.take(n - 1));
        assert(part.last() == evaluations[n - 1]);
        if n <= win {
        } else if n - 1 == win {
            assert(evaluations.take(win) + evaluations.subrange(win + 1, n) =~= evaluations.take(
                n - 1,
            ));
        } else {
            let whole = evaluations.take(win) + evaluations.subrange(win + 1, n);
            assert(whole.drop_last() =~= evaluations.take(win) + evaluations.subrange(
                win + 1,
                n - 1,
            ));
            assert(whole.last() == evaluations[n - 1]);
        }
    } else {
        assert(evaluations.take(0) =~= Seq::empty());
    }
}

/// An error says what is wrong, and with what.
pub proof fn errors_in_words(pattern: String, error: String, m: String, id: String)
    ensures
        route_error_text(RouteError::DuplicateRouteId(id)) == "Duplicate route ID: "@ + id@,
        route_error_text(RouteError::InvalidConfig(m)) == "Invalid route configuration: "@ + m@,
        route_error_text((RouteError::InvalidRegex { pattern, error }))
            == "Invalid regex pattern '"@ + pattern@ + "': "@ + error@,
{
}

} // verus!
