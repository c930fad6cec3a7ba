//! A small HTTP server library: request parsing, path matching with variables,
//! response framing and an in-memory set of served files. The network loop and
//! file reading live outside the library; the library decides what is answered.
use vstd::prelude::*;

pub mod text;
pub mod request;
pub mod file;
pub mod response;

use crate::file::{FileView, HttpFileSystem};
use crate::request::{HttpRequest, RequestView, compare_path_spec, pair_views, parse_request};
use crate::response::{
    HttpResponse, ResponseView, VariableView, add_variable_spec, empty_response, first_value,
    has_variable, http_raw, lemma_first_value_push, lemma_lookup_absent, lemma_lookup_push,
    value_of, variable_lookup,
};
use crate::text::{chars_eq, chars_of, decimal, decimal_string, string_of, utf8_to_string};
use vstd::utf8::{decode_utf8, valid_utf8};

verus! {

/// The method of a request.
pub enum HttpMethod {
    GET,
    POST,
    Custom(String),
}

/// What an `HttpMethod` stands for.
pub enum MethodView {
    Get,
    Post,
    Custom(Seq<char>),
}

impl View for HttpMethod {
    type V = MethodView;

    open spec fn view(&self) -> MethodView {
        match self {
            HttpMethod::GET => MethodView::Get,
            HttpMethod::POST => MethodView::Post,
            HttpMethod::Custom(s) => MethodView::Custom(s@),
        }
    }
}

pub open spec fn get_text() -> Seq<char> {
    seq!['G', 'E', 'T']
}

pub open spec fn post_text() -> Seq<char> {
    seq!['P', 'O', 'S', 'T']
}

/// The text of a method.
pub open spec fn method_text(m: MethodView) -> Seq<char> {
    match m {
        MethodView::Get => get_text(),
        MethodView::Post => post_text(),
        MethodView::Custom(s) => s,
    }
}

/// The method that a text names: `GET` and `POST` are known, anything else is custom.
pub open spec fn method_from(s: Seq<char>) -> MethodView {
    if s == get_text() {
        MethodView::Get
    } else if s == post_text() {
        MethodView::Post
    } else {
        MethodView::Custom(s)
    }
}

impl HttpMethod {
    /// The text of the method.
    pub fn to_string(&self) -> (s: String)
        ensures
            s@ == method_text(self@),
    {
        match self {
            HttpMethod::GET => {
                let s = String::from_str("GET");
                proof {
                    reveal_strlit("GET");
                }
                s
            },
            HttpMethod::POST => {
                let s = String::from_str("POST");
                proof {
                    reveal_strlit("POST");
                }
                s
            },
            HttpMethod::Custom(value) => value.clone(),
        }
    }

    /// The method that `http_type` names.
    pub fn from_string(http_type: String) -> (m: HttpMethod)
        ensures
            m@ == method_from(http_type@),
    {
        let chars = chars_of(http_type.as_str());
        let get: Vec<char> = vec!['G', 'E', 'T'];
        let post: Vec<char> = vec!['P', 'O', 'S', 'T'];
        assert(get@ =~= get_text());
        assert(post@ =~= post_text());
        if chars_eq(&chars, &get) {
            HttpMethod::GET
        } else if chars_eq(&chars, &post) {
            HttpMethod::POST
        } else {
            HttpMethod::Custom(http_type)
        }
    }
}

/// Naming a method by its text and reading the text back gives the text again.
pub proof fn law_method_text_round_trip(s: Seq<char>)
    ensures
        method_text(method_from(s)) == s,
{
}

/// A method read back from its own text is the same method, unless it is a custom
/// method that spells a known one.
pub proof fn law_method_from_text(m: MethodView)
    requires
        m matches MethodView::Custom(s) ==> s != get_text() && s != post_text(),
    ensures
        method_from(method_text(m)) == m,
{
}

/// The status line of a response.
pub enum ResponseStatus {
    OK,
    NotFound,
    Custom(String),
}

/// What a `ResponseStatus` stands for.
pub enum StatusView {
    OK,
    NotFound,
    Custom(Seq<char>),
}

impl View for ResponseStatus {
    type V = StatusView;

    open spec fn view(&self) -> StatusView {
        match self {
            ResponseStatus::OK => StatusView::OK,
            ResponseStatus::NotFound => StatusView::NotFound,
            ResponseStatus::Custom(s) => StatusView::Custom(s@),
        }
    }
}

/// The text of a status: `200 OK`, `404 Not Found`, or the custom text.
pub open spec fn status_text(st: StatusView) -> Seq<char> {
    match st {
        StatusView::OK => seq!['2', '0', '0', ' ', 'O', 'K'],
        StatusView::NotFound => seq![
            '4', '0', '4', ' ', 'N', 'o', 't', ' ', 'F', 'o', 'u', 'n', 'd'
        ],
        StatusView::Custom(s) => s,
    }
}

impl ResponseStatus {
    /// The text of the status, as it appears after `HTTP/1.1 `.
    pub fn to_string(&self) -> (s: String)
        ensures
            s@ == status_text(self@),
    {
        match self {
            ResponseStatus::OK => {
                let s = String::from_str("200 OK");
                proof {
                    reveal_strlit("200 OK");
                }
                assert(s@ =~= status_text(self@));
                s
            },
            ResponseStatus::NotFound => {
                let s = String::from_str("404 Not Found");
                proof {
                    reveal_strlit("404 Not Found");
                }
                assert(s@ =~= status_text(self@));
                s
            },
            ResponseStatus::Custom(value) => value.clone(),
        }
    }
}


/// What an `HttpServer` holds: the address it listens on, its files, its routes
/// (path and whether it has variables) with their handlers, and the handler for
/// requests that no route matches, if one was set.
pub struct ServerView<H> {
    pub host: Seq<char>,
    pub files: Seq<FileView>,
    pub routes: Seq<(Seq<char>, bool)>,
    pub handlers: Seq<H>,
    pub not_found: Option<H>,
}

/// A server: routes, each with a handler of type `H`, and the files it can send.
/// The network loop that reads requests and runs the handlers is the caller's.
pub struct HttpServer<H> {
    host: String,
    files: HttpFileSystem,
    path_and_response: Vec<((String, bool), H)>,
    not_found_response: Option<H>,
}

/// The routes of a server.
pub open spec fn route_views<H>(v: Seq<((String, bool), H)>) -> Seq<(Seq<char>, bool)> {
    v.map_values(|x: ((String, bool), H)| (x.0.0@, x.0.1))
}

/// The handlers of a server.
pub open spec fn handler_views<H>(v: Seq<((String, bool), H)>) -> Seq<H> {
    v.map_values(|x: ((String, bool), H)| x.1)
}

impl<H> View for HttpServer<H> {
    type V = ServerView<H>;

    closed spec fn view(&self) -> ServerView<H> {
        ServerView {
            host: self.host@,
            files: self.files@,
            routes: route_views(self.path_and_response@),
            handlers: handler_views(self.path_and_response@),
            not_found: self.not_found_response,
        }
    }
}

/// The address `ip:port`.
pub open spec fn host_of(ip: Seq<char>, port: u16) -> Seq<char> {
    ip + seq![':'] + decimal(port as nat)
}

/// The first route from index `i` on that the path matches.
pub open spec fn first_route(routes: Seq<(Seq<char>, bool)>, path: Seq<char>, i: int) -> Option<
    int,
>
    decreases routes.len() - i,
{
    if i < 0 || i >= routes.len() {
        None
    } else if compare_path_spec(path, routes[i].1, routes[i].0).0 {
        Some(i)
    } else {
        first_route(routes, path, i + 1)
    }
}

/// The variables after adding the first `n` pairs of `data` in order.
pub open spec fn add_variables(vars: Seq<VariableView>, data: Seq<(Seq<char>, Seq<char>)>, n: int) -> Seq<
    VariableView,
>
    decreases n,
{
    if n <= 0 {
        vars
    } else {
        add_variable_spec(add_variables(vars, data, n - 1), data[n - 1])
    }
}

/// The route chosen for a request path, and the response handed to its handler: a
/// new response holding the values the route's variables took. No route: `None`
/// and a new response.
pub open spec fn route_spec(routes: Seq<(Seq<char>, bool)>, path: Seq<char>) -> (
    Option<int>,
    ResponseView,
) {
    match first_route(routes, path, 0) {
        None => (None, empty_response()),
        Some(i) => {
            let vars = compare_path_spec(path, routes[i].1, routes[i].0).1;
            (
                Some(i),
                ResponseView {
                    variables: match vars {
                        Some(vs) => add_variables(Seq::empty(), vs, vs.len() as int),
                        None => Seq::empty(),
                    },
                    ..empty_response()
                },
            )
        },
    }
}

/// The bytes read from a client with every zero byte removed.
pub open spec fn without_zeros(b: Seq<u8>) -> Seq<u8>
    decreases b.len(),
{
    if b.len() == 0 {
        b
    } else if b.last() == 0 {
        without_zeros(b.drop_last())
    } else {
        without_zeros(b.drop_last()).push(b.last())
    }
}

/// The text of a request read from a client: its non-zero bytes, where they are
/// valid UTF-8.
pub open spec fn request_text_spec(b: Seq<u8>) -> Option<Seq<char>> {
    if valid_utf8(without_zeros(b)) {
        Some(decode_utf8(without_zeros(b)))
    } else {
        None
    }
}

/// What the server does with the bytes read from a client: no answer where they
/// are not a UTF-8 text or the text cannot be parsed; else the request, the route
/// chosen for it and the response handed to that route's handler.
pub open spec fn dispatch_spec(routes: Seq<(Seq<char>, bool)>, b: Seq<u8>) -> Option<
    (RequestView, Option<int>, ResponseView),
> {
    match request_text_spec(b) {
        None => None,
        Some(t) => match parse_request(t) {
            None => None,
            Some(req) => {
                let (i, resp) = route_spec(routes, req.path);
                Some((req, i, resp))
            },
        },
    }
}

/// Which handler answers a request: the handler of a route, the not-found
/// handler that was set, or the default not-found answer (`404`).
#[derive(Clone, Copy, Debug, PartialEq, Eq, Structural)]
pub enum HandlerChoice {
    Route(usize),
    NotFound,
    DefaultNotFound,
}

/// The handler chosen for a request: the route's where one matched, else the
/// not-found handler where one was set, else the default answer.
pub open spec fn handler_choice(route: Option<int>, has_not_found: bool) -> HandlerChoice {
    match route {
        Some(i) => HandlerChoice::Route(i as usize),
        None => if has_not_found {
            HandlerChoice::NotFound
        } else {
            HandlerChoice::DefaultNotFound
        },
    }
}

pub open spec fn not_found_text() -> Seq<char> {
    seq!['4', '0', '4']
}

/// The text of a request read from a client.
pub fn request_text(buf: &[u8]) -> (r: Option<String>)
    ensures
        match request_text_spec(buf@) {
            Some(t) => r matches Some(s) && s@ == t,
            None => r is None,
        },
{
    let mut bytes: Vec<u8> = Vec::new();
    let mut i: usize = 0;
    while i < buf.len()
        invariant
            i <= buf.len(),
            bytes@ == without_zeros(buf@.take(i as int)),
        decreases buf.len() - i,
    {
        assert(buf@.take(i + 1).drop_last() =~= buf@.take(i as int));
        if buf[i] != 0 {
            bytes.push(buf[i]);
        }
        i += 1;
    }
    assert(buf@.take(buf.len() as int) =~= buf@);
    utf8_to_string(bytes)
}

impl<H> HttpServer<H> {
    /// A server for `ip:port`, with no routes, no files and the default answer
    /// (`404`) for requests that no route matches.
    pub fn new(ip: String, port: u16) -> (r: HttpServer<H>)
        ensures
            r@.host == host_of(ip@, port),
            r@.files.len() == 0,
            r@.routes.len() == 0,
            r@.handlers.len() == 0,
            r@.not_found is None,
    {
        let mut host = chars_of(ip.as_str());
        host.push(':');
        let port_text = decimal_string(port as usize);
        let digits = chars_of(port_text.as_str());
        let host = crate::text::concat_chars(&host, &digits);
        let r = HttpServer {
            host: string_of(&host),
            files: HttpFileSystem::new(),
            path_and_response: Vec::new(),
            not_found_response: None,
        };
        assert(r@.routes =~= Seq::<(Seq<char>, bool)>::empty());
        assert(r@.handlers =~= Seq::<H>::empty());
        r
    }

    /// The route `path` (matched as it is) with its handler, after the others.
    pub fn get(&mut self, path: String, closure: H)
        ensures
            final(self)@ == (ServerView {
                routes: old(self)@.routes.push((path@, false)),
                handlers: old(self)@.handlers.push(closure),
                ..old(self)@
            }),
    {
        let ghost rs = self.path_and_response@;
        let ghost pv = path@;
        self.path_and_response.push(((path, false), closure));
        assert(route_views(self.path_and_response@) =~= route_views(rs).push((pv, false)));
        assert(handler_views(self.path_and_response@) =~= handler_views(rs).push(closure));
    }

    /// The route `path` with variables such as `{user}`, with its handler, after the
    /// others.
    pub fn get_with_variables(&mut self, path: String, closure: H)
        ensures
            final(self)@ == (ServerView {
                routes: old(self)@.routes.push((path@, true)),
                handlers: old(self)@.handlers.push(closure),
                ..old(self)@
            }),
    {
        let ghost rs = self.path_and_response@;
        let ghost pv = path@;
        self.path_and_response.push(((path, true), closure));
        assert(route_views(self.path_and_response@) =~= route_views(rs).push((pv, true)));
        assert(handler_views(self.path_and_response@) =~= handler_views(rs).push(closure));
    }

    /// The handler for requests that no route matches.
    pub fn not_found_page(&mut self, closure: H)
        ensures
            final(self)@ == (ServerView { not_found: Some(closure), ..old(self)@ }),
    {
        self.not_found_response = Some(closure);
    }

    /// The server's files, to add to.
    pub fn get_file_system(&mut self) -> (r: &mut HttpFileSystem)
        ensures
            r@ == old(self)@.files,
            final(self)@ == (ServerView { files: final(r)@, ..old(self)@ }),
    {
        &mut self.files
    }

    /// The address the server listens on.
    pub fn get_host(&self) -> (r: &String)
        ensures
            r@ == self@.host,
    {
        &self.host
    }

    /// How many routes the server has.
    pub fn route_count(&self) -> (n: usize)
        ensures
            n == self@.routes.len(),
            n == self@.handlers.len(),
    {
        self.path_and_response.len()
    }

    /// The handler of route `i`.
    pub fn handler(&self, i: usize) -> (r: &H)
        requires
            i < self@.handlers.len(),
        ensures
            *r == self@.handlers[i as int],
    {
        &self.path_and_response[i].1
    }

    /// The handler for requests that no route matches, if one was set.
    pub fn not_found_handler(&self) -> (r: Option<&H>)
        ensures
            match self@.not_found {
                Some(h) => r matches Some(g) && *g == h,
                None => r is None,
            },
    {
        match &self.not_found_response {
            Some(h) => Some(h),
            None => None,
        }
    }

    /// What is answered where no route matches and no handler was set: `404`.
    pub fn send_default_not_found(response: &mut HttpResponse)
        ensures
            final(response)@ == (ResponseView {
                raw: http_raw(old(response)@.status, old(response)@.headers, not_found_text()),
                ..old(response)@
            }),
    {
        let text = String::from_str("404");
        proof {
            reveal_strlit("404");
            assert("404"@ =~= not_found_text());
        }
        response.send(text);
    }

    /// The first route that the request's path matches, and a new response that
    /// holds the values of that route's variables.
    pub fn route(&self, request: &HttpRequest) -> (r: (Option<usize>, HttpResponse))
        ensures
            ({
                let (i, resp) = route_spec(self@.routes, request@.path);
                &&& match i {
                    Some(k) => r.0 matches Some(j) && j == k,
                    None => r.0 is None,
                }
                &&& r.1@ == resp
            }),
    {
        let ghost routes = self@.routes;
        let mut i: usize = 0;
        while i < self.path_and_response.len()
            invariant
                i <= self.path_and_response.len(),
                routes == route_views(self.path_and_response@),
                routes == self@.routes,
                first_route(routes, request@.path, 0) == first_route(
                    routes,
                    request@.path,
                    i as int,
                ),
            decreases self.path_and_response.len() - i,
        {
            let entry = &self.path_and_response[i];
            assert(routes[i as int] == (entry.0.0@, entry.0.1));
            let (eq, variables) = request.compare_path(entry.0.1, entry.0.0.clone());
            if eq {
                let mut response = HttpResponse::new();
                match variables {
                    Some(vs) => {
                        let ghost all = pair_views(vs@);
                        let total = vs.len();
                        let mut rest = vs;
                        let mut n: usize = 0;
                        assert(rest@ =~= vs@.skip(0));
                        while rest.len() > 0
                            invariant
                                all == pair_views(vs@),
                                n <= total,
                                total == vs@.len(),
                                rest@ == vs@.skip(n as int),
                                response@ == (ResponseView {
                                    variables: add_variables(Seq::empty(), all, n as int),
                                    ..empty_response()
                                }),
                            decreases rest.len(),
                        {
                            let ghost before = rest@;
                            let var = rest.remove(0);
                            assert(var == vs@[n as int]);
                            assert(all[n as int] == (var.0@, var.1@));
                            response.add_variabe(var);
                            n += 1;
                            assert(rest@ =~= vs@.skip(n as int));
                        }
                        assert(n == vs@.len());
                    },
                    None => {},
                }
                return (Some(i), response);
            }
            i += 1;
        }
        (None, HttpResponse::new())
    }

    /// What the server does with the bytes read from a client (see
    /// `dispatch_spec`): the request, which handler answers it (`handler_choice`),
    /// and the response to hand that handler. The caller runs the handler once on
    /// the response and sends its text.
    pub fn dispatch(&self, buf: &[u8]) -> (r: Option<(HttpRequest, HandlerChoice, HttpResponse)>)
        ensures
            match dispatch_spec(self@.routes, buf@) {
                None => r is None,
                Some((req, i, resp)) => r matches Some((q, c, s)) && q@ == req && s@ == resp && c
                    == handler_choice(i, self@.not_found is Some),
            },
    {
        match request_text(buf) {
            None => None,
            Some(text) => match HttpRequest::parse(&text) {
                None => None,
                Some(request) => {
                    let (i, response) = self.route(&request);
                    let choice = match i {
                        Some(k) => HandlerChoice::Route(k),
                        None => if self.not_found_response.is_some() {
                            HandlerChoice::NotFound
                        } else {
                            HandlerChoice::DefaultNotFound
                        },
                    };
                    Some((request, choice, response))
                },
            },
        }
    }
}

proof fn lemma_first_route_push(routes: Seq<(Seq<char>, bool)>, extra: (Seq<char>, bool), path: Seq<char>, i: int)
    requires
        0 <= i <= routes.len(),
        first_route(routes, path, i) is None,
    ensures
        first_route(routes.push(extra), path, i) == (if compare_path_spec(path, extra.1, extra.0).0 {
            Some(routes.len() as int)
        } else {
            None
        }),
    decreases routes.len() - i,
{
    let rs = routes.push(extra);
    if i < routes.len() {
        assert(rs[i] == routes[i]);
        assert(!compare_path_spec(path, routes[i].1, routes[i].0).0);
        lemma_first_route_push(routes, extra, path, i + 1);
    } else {
        assert(rs[i] == extra);
        assert(first_route(rs, path, i + 1) is None);
    }
}

/// A plain route added after routes that do not match a path is the route chosen
/// for that path.
pub proof fn law_added_route_is_chosen(routes: Seq<(Seq<char>, bool)>, path: Seq<char>)
    requires
        first_route(routes, path, 0) is None,
    ensures
        route_spec(routes.push((path, false)), path).0 == Some(routes.len() as int),
{
    lemma_first_route_push(routes, (path, false), path, 0);
}

/// A path that no route matches gets no route and a new response.
pub proof fn law_unmatched_path(routes: Seq<(Seq<char>, bool)>, path: Seq<char>)
    requires
        forall|i: int| 0 <= i < routes.len() ==> !compare_path_spec(path, routes[i].1, routes[i].0).0,
    ensures
        route_spec(routes, path) == (None::<int>, empty_response()),
{
    lemma_no_route(routes, path, 0);
}

proof fn lemma_no_route(routes: Seq<(Seq<char>, bool)>, path: Seq<char>, i: int)
    requires
        0 <= i,
        forall|j: int| 0 <= j < routes.len() ==> !compare_path_spec(path, routes[j].1, routes[j].0).0,
    ensures
        first_route(routes, path, i) is None,
    decreases routes.len() - i,
{
    if i < routes.len() {
        lemma_no_route(routes, path, i + 1);
    }
}


/// A name is among the variables made from the first `m` pairs exactly when one of
/// those pairs carries it.
proof fn lemma_has_add_variables(vs: Seq<(Seq<char>, Seq<char>)>, m: int, name: Seq<char>)
    requires
        0 <= m <= vs.len(),
    ensures
        has_variable(add_variables(Seq::empty(), vs, m), name) == (exists|j: int|
            0 <= j < m && vs[j].0 == name),
    decreases m,
{
    if m > 0 {
        lemma_has_add_variables(vs, m - 1, name);
        let v = add_variables(Seq::empty(), vs, m - 1);
        let x = vs[m - 1];
        if !has_variable(v, x.0) {
            let w = v.push((x.0, value_of(x.1)));
            if has_variable(w, name) {
                let i = choose|i: int| 0 <= i < w.len() && w[i].0 == name;
                if i < v.len() {
                    assert(v[i].0 == name);
                }
            }
            if has_variable(v, name) {
                let i = choose|i: int| 0 <= i < v.len() && v[i].0 == name;
                assert(w[i].0 == name);
            }
            if x.0 == name {
                assert(w[v.len() as int].0 == name);
            }
        } else {
            if x.0 == name {
                assert(exists|j: int| 0 <= j < m - 1 && vs[j].0 == name);
            }
        }
    }
}

/// Looking a name up among the variables made from the first `m` pairs gives the
/// value of the first of those pairs that carries the name.
proof fn lemma_lookup_add_variables(vs: Seq<(Seq<char>, Seq<char>)>, m: int, name: Seq<char>)
    requires
        0 <= m <= vs.len(),
    ensures
        variable_lookup(add_variables(Seq::empty(), vs, m), name, 0) == first_value(
            vs.take(m),
            name,
        ),
    decreases m,
{
    if m == 0 {
        assert(vs.take(0) =~= Seq::<(Seq<char>, Seq<char>)>::empty());
    } else {
        lemma_lookup_add_variables(vs, m - 1, name);
        lemma_has_add_variables(vs, m - 1, name);
        let v = add_variables(Seq::empty(), vs, m - 1);
        let x = vs[m - 1];
        let s = vs.take(m - 1);
        assert(vs.take(m) =~= s.push(x));
        lemma_first_value_push(s, x, name);
        assert((exists|j: int| 0 <= j < s.len() && s[j].0 == name) == (exists|j: int|
            0 <= j < m - 1 && vs[j].0 == name)) by {
            if exists|j: int| 0 <= j < m - 1 && vs[j].0 == name {
                let j = choose|j: int| 0 <= j < m - 1 && vs[j].0 == name;
                assert(s[j] == vs[j]);
            }
        }
        if has_variable(v, x.0) {
            lemma_has_add_variables(vs, m - 1, x.0);
            if !has_variable(v, name) {
                assert forall|j: int| 0 <= j < v.len() implies v[j].0 != name by {
                    if v[j].0 == name {
                        assert(has_variable(v, name));
                    }
                }
                lemma_lookup_absent(v, name, 0);
                if x.0 == name {
                    assert(false);
                }
            }
        } else {
            let y = (x.0, value_of(x.1));
            lemma_lookup_push(v, y, name, 0);
            if !has_variable(v, name) {
                if x.0 == name {
                    if x.1.len() == 0 {
                        assert(x.1 =~= Seq::<char>::empty());
                    }
                }
            }
        }
    }
}

/// In the response handed to a route's handler, each variable reads back as the
/// value of the first pair of that name that matching the path gave, or as the
/// empty text where there is none.
pub proof fn law_route_variables_read_back(
    routes: Seq<(Seq<char>, bool)>,
    path: Seq<char>,
    name: Seq<char>,
)
    ensures
        route_spec(routes, path).0 matches Some(i) ==> variable_lookup(
            route_spec(routes, path).1.variables,
            name,
            0,
        ) == match compare_path_spec(path, routes[i].1, routes[i].0).1 {
            Some(vs) => first_value(vs, name),
            None => Seq::<char>::empty(),
        },
{
    if let Some(i) = route_spec(routes, path).0 {
        match compare_path_spec(path, routes[i].1, routes[i].0).1 {
            Some(vs) => {
                lemma_lookup_add_variables(vs, vs.len() as int, name);
                assert(vs.take(vs.len() as int) =~= vs);
            },
            None => {},
        }
    }
}


/// The route chosen for a path is the first one, in the order they were added,
/// that matches it; where none matches, none is chosen.
pub proof fn law_first_matching_route(routes: Seq<(Seq<char>, bool)>, path: Seq<char>)
    ensures
        route_spec(routes, path).0 matches Some(i) ==> {
            &&& 0 <= i < routes.len()
            &&& compare_path_spec(path, routes[i].1, routes[i].0).0
            &&& forall|j: int|
                0 <= j < i ==> !(#[trigger] compare_path_spec(path, routes[j].1, routes[j].0)).0
        },
        route_spec(routes, path).0 is None ==> forall|j: int|
            0 <= j < routes.len() ==> !(#[trigger] compare_path_spec(
                path,
                routes[j].1,
                routes[j].0,
            )).0,
{
    lemma_first_route(routes, path, 0);
}

proof fn lemma_first_route(routes: Seq<(Seq<char>, bool)>, path: Seq<char>, i: int)
    requires
        0 <= i,
    ensures
        first_route(routes, path, i) matches Some(k) ==> {
            &&& i <= k < routes.len()
            &&& compare_path_spec(path, routes[k].1, routes[k].0).0
            &&& forall|j: int|
                i <= j < k ==> !(#[trigger] compare_path_spec(path, routes[j].1, routes[j].0)).0
        },
        first_route(routes, path, i) is None ==> forall|j: int|
            i <= j < routes.len() ==> !(#[trigger] compare_path_spec(
                path,
                routes[j].1,
                routes[j].0,
            )).0,
    decreases routes.len() - i,
{
    if i < routes.len() && !compare_path_spec(path, routes[i].1, routes[i].0).0 {
        lemma_first_route(routes, path, i + 1);
    }
}

proof fn lemma_without_zeros_concat(a: Seq<u8>, b: Seq<u8>)
    ensures
        without_zeros(a + b) == without_zeros(a) + without_zeros(b),
    decreases b.len(),
{
    if b.len() == 0 {
        assert(a + b =~= a);
        assert(without_zeros(a) + without_zeros(b) =~= without_zeros(a));
    } else {
        assert((a + b).drop_last() =~= a + b.drop_last());
        assert((a + b).last() == b.last());
        lemma_without_zeros_concat(a, b.drop_last());
        if b.last() != 0 {
            assert(without_zeros(a) + without_zeros(b.drop_last()).push(b.last()) =~= (
            without_zeros(a) + without_zeros(b.drop_last())).push(b.last()));
        }
    }
}

proof fn lemma_without_zeros_nonzero(b: Seq<u8>)
    ensures
        forall|i: int| 0 <= i < without_zeros(b).len() ==> #[trigger] without_zeros(b)[i] != 0,
    decreases b.len(),
{
    if b.len() > 0 {
        lemma_without_zeros_nonzero(b.drop_last());
        let w = without_zeros(b.drop_last());
        if b.last() != 0 {
            assert forall|i: int| 0 <= i < w.push(b.last()).len() implies #[trigger] w.push(
                b.last(),
            )[i] != 0 by {
                if i < w.len() {
                    assert(w.push(b.last())[i] == w[i]);
                }
            }
        }
    }
}

/// Dropping the zero bytes works byte by byte: a zero byte goes, any other stays,
/// the rest keep their order, and nothing zero is left.
pub proof fn law_without_zeros(a: Seq<u8>, b: Seq<u8>, x: u8)
    ensures
        without_zeros(Seq::<u8>::empty()) == Seq::<u8>::empty(),
        without_zeros(seq![x]) == (if x == 0 {
            Seq::<u8>::empty()
        } else {
            seq![x]
        }),
        without_zeros(a + b) == without_zeros(a) + without_zeros(b),
        forall|i: int| 0 <= i < without_zeros(a).len() ==> #[trigger] without_zeros(a)[i] != 0,
        (forall|i: int| 0 <= i < a.len() ==> a[i] != 0) ==> without_zeros(a) == a,
{
    let e = Seq::<u8>::empty();
    assert(seq![x].drop_last() =~= e);
    assert(e.push(x) =~= seq![x]);
    lemma_without_zeros_concat(a, b);
    lemma_without_zeros_nonzero(a);
    if forall|i: int| 0 <= i < a.len() ==> a[i] != 0 {
        lemma_without_zeros_keeps(a);
    }
}

proof fn lemma_without_zeros_keeps(a: Seq<u8>)
    requires
        forall|i: int| 0 <= i < a.len() ==> a[i] != 0,
    ensures
        without_zeros(a) == a,
    decreases a.len(),
{
    if a.len() > 0 {
        lemma_without_zeros_keeps(a.drop_last());
        assert(a.drop_last().push(a.last()) =~= a);
    }
}

} // verus!
