//! Requests, responses, handlers, and the router that owns one route trie per
//! HTTP method.

use vstd::prelude::*;
use vstd::string::*;
use vstd::utf8::encode_utf8;

use crate::path::{path_pieces, pattern_of, same_text, SegmentView};
use crate::route::{add_route, bindings_view, register_error, resolve_spec, trie_wf, Route, RouteError};

verus! {

/// The status lines that handlers and the boundary layer answer with.
#[allow(non_camel_case_types)]
#[derive(PartialEq, Eq, Structural, Debug, Clone, Copy)]
pub enum HttpStatus {
    OK,
    BAD_REQUEST,
    NOT_FOUND,
    UNAUTHENTICATED,
    UNAUTHORIZED,
    INTERNAL_SERVER_ERROR,
}

impl HttpStatus {
    /// The HTTP/1.1 status line of this status.
    pub open spec fn status_line(self) -> Seq<char> {
        match self {
            HttpStatus::OK => "HTTP/1.1 200 OK"@,
            HttpStatus::BAD_REQUEST => "HTTP/1.1 400 Bad Request"@,
            HttpStatus::NOT_FOUND => "HTTP/1.1 404 Not Found"@,
            HttpStatus::UNAUTHENTICATED => "HTTP/1.1 401 Unauthorized"@,
            HttpStatus::UNAUTHORIZED => "HTTP/1.1 403 Forbidden"@,
            HttpStatus::INTERNAL_SERVER_ERROR => "HTTP/1.1 500 Internal Server Error"@,
        }
    }

    /// The status line, as [`HttpStatus::status_line`] gives it.
    pub fn to_string(&self) -> (r: String)
        ensures
            r@ == self.status_line(),
    {
        match self {
            HttpStatus::OK => String::from_str("HTTP/1.1 200 OK"),
            HttpStatus::BAD_REQUEST => String::from_str("HTTP/1.1 400 Bad Request"),
            HttpStatus::NOT_FOUND => String::from_str("HTTP/1.1 404 Not Found"),
            HttpStatus::UNAUTHENTICATED => String::from_str("HTTP/1.1 401 Unauthorized"),
            HttpStatus::UNAUTHORIZED => String::from_str("HTTP/1.1 403 Forbidden"),
            HttpStatus::INTERNAL_SERVER_ERROR => String::from_str(
                "HTTP/1.1 500 Internal Server Error",
            ),
        }
    }
}

/// What a handler sees of a request.
pub struct RequestView {
    pub method: Seq<char>,
    pub path: Seq<char>,
    pub query: Seq<(Seq<char>, Seq<char>)>,
    pub body: Seq<char>,
    pub params: Seq<(Seq<char>, Seq<char>)>,
}

/// Read access to a request.
pub trait IRequest {
    spec fn request_view(&self) -> RequestView;

    fn get_method(&self) -> (r: &str)
        ensures
            r@ == self.request_view().method,
    ;

    fn get_path(&self) -> (r: &str)
        ensures
            r@ == self.request_view().path,
    ;

    fn get_query(&self) -> (r: &[(String, String)])
        ensures
            bindings_view(r@) == self.request_view().query,
    ;

    fn get_body(&self) -> (r: &str)
        ensures
            r@ == self.request_view().body,
    ;
}

/// Read access to a response.
pub trait IResponse {
    spec fn body_view(&self) -> Seq<char>;

    spec fn status_view(&self) -> Seq<char>;

    /// The length of the body in bytes.
    fn len(&self) -> (r: usize)
        ensures
            r == encode_utf8(self.body_view()).len() as usize,
    ;

    fn body(&self) -> (r: &str)
        ensures
            r@ == self.body_view(),
    ;

    fn status(&self) -> (r: &str)
        ensures
            r@ == self.status_view(),
    ;
}

/// A request as the router hands it to a handler.
pub struct Request {
    method: String,
    path: String,
    query: Vec<(String, String)>,
    body: String,
    params: Vec<(String, String)>,
}

/// A handler's answer: a status line and a body.
pub struct Response {
    body: String,
    status: String,
}

impl Request {
    /// A request with no path parameters bound yet.
    pub fn new(method: String, path: String, query: Vec<(String, String)>, body: String) -> (r: Self)
        ensures
            r.request_view() == (RequestView {
                method: method@,
                path: path@,
                query: bindings_view(query@),
                body: body@,
                params: Seq::empty(),
            }),
    {
        let r = Request { method, path, query, body, params: Vec::new() };
        assert(bindings_view(r.params@) =~= Seq::empty());
        r
    }

    /// This request with `params` as its path parameters.
    pub fn with_params(self, params: Vec<(String, String)>) -> (r: Self)
        ensures
            r.request_view() == (RequestView { params: bindings_view(params@), ..self.request_view() }),
    {
        Request { params, ..self }
    }

    /// This request with `body` as its body.
    pub fn with_body(self, body: String) -> (r: Self)
        ensures
            r.request_view() == (RequestView { body: body@, ..self.request_view() }),
    {
        Request { body, ..self }
    }

    /// The path parameters that routing bound, in path order.
    pub fn get_params(&self) -> (r: &[(String, String)])
        ensures
            bindings_view(r@) == self.request_view().params,
    {
        self.params.as_slice()
    }
}

impl IRequest for Request {
    closed spec fn request_view(&self) -> RequestView {
        RequestView {
            method: self.method@,
            path: self.path@,
            query: bindings_view(self.query@),
            body: self.body@,
            params: bindings_view(self.params@),
        }
    }

    fn get_method(&self) -> (r: &str) {
        self.method.as_str()
    }

    fn get_path(&self) -> (r: &str) {
        self.path.as_str()
    }

    fn get_query(&self) -> (r: &[(String, String)]) {
        self.query.as_slice()
    }

    fn get_body(&self) -> (r: &str) {
        self.body.as_str()
    }
}

impl Response {
    pub fn new(body: String, status: String) -> (r: Self)
        ensures
            r.body_view() == body@,
            r.status_view() == status@,
    {
        Response { body, status }
    }
}

impl IResponse for Response {
    closed spec fn body_view(&self) -> Seq<char> {
        self.body@
    }

    closed spec fn status_view(&self) -> Seq<char> {
        self.status@
    }

    fn len(&self) -> (r: usize) {
        self.body.as_str().len()
    }

    fn body(&self) -> (r: &str) {
        self.body.as_str()
    }

    fn status(&self) -> (r: &str) {
        self.status.as_str()
    }
}

/// A request handler: from a request, its response or the cause of its failure.
pub trait Handler {
    fn handle(&self, request: &Request) -> Result<Response, String>;
}

/// The handler of the root page.
pub fn index(_r: &Request) -> (r: Response)
    ensures
        r.body_view() == "Hello world!"@,
        r.status_view() == HttpStatus::OK.status_line(),
{
    Response::new(String::from_str("Hello world!"), HttpStatus::OK.to_string())
}

/// [`index`] as a [`Handler`].
pub struct Index;

impl Handler for Index {
    fn handle(&self, request: &Request) -> Result<Response, String> {
        Ok(index(request))
    }
}

/// Why a request could not be answered by a handler.
#[derive(PartialEq, Eq, Debug)]
pub enum DispatchError {
    /// The method is not one of GET, POST, PUT and DELETE.
    UnsupportedMethod,
    /// No route of the method matches the path.
    RouteNotFound,
    /// The handler failed, for the cause given.
    HandlerFailed(String),
}

/// The model of a [`Server`]: the route trie of each method.
pub struct ServerView<H> {
    pub get: Map<Seq<SegmentView>, Option<H>>,
    pub post: Map<Seq<SegmentView>, Option<H>>,
    pub put: Map<Seq<SegmentView>, Option<H>>,
    pub delete: Map<Seq<SegmentView>, Option<H>>,
}

/// The trie of no route.
pub open spec fn empty_trie<H>() -> Map<Seq<SegmentView>, Option<H>> {
    Map::<Seq<SegmentView>, Option<H>>::empty().insert(Seq::empty(), None)
}

/// The trie of `method`, or `None` where the method is not supported.
pub open spec fn routes_of<H>(v: ServerView<H>, method: Seq<char>) -> Option<
    Map<Seq<SegmentView>, Option<H>>,
> {
    if method == "GET"@ {
        Some(v.get)
    } else if method == "POST"@ {
        Some(v.post)
    } else if method == "PUT"@ {
        Some(v.put)
    } else if method == "DELETE"@ {
        Some(v.delete)
    } else {
        None
    }
}

/// The trie `m` after registering `h` at the route path `path`: unchanged where
/// that fails.
pub open spec fn registered<H>(m: Map<Seq<SegmentView>, Option<H>>, path: Seq<char>, h: H) -> Map<
    Seq<SegmentView>,
    Option<H>,
> {
    if register_error(m, path) is None {
        add_route(m, pattern_of(path)->Some_0, h)
    } else {
        m
    }
}

/// The handler and bindings for a request of `method` on `path`.
pub open spec fn route_spec<H>(v: ServerView<H>, method: Seq<char>, path: Seq<char>) -> Result<
    (H, Seq<(Seq<char>, Seq<char>)>),
    DispatchError,
> {
    match routes_of(v, method) {
        None => Err(DispatchError::UnsupportedMethod),
        Some(m) => match resolve_spec(m, path_pieces(path)) {
            Some(found) => Ok(found),
            None => Err(DispatchError::RouteNotFound),
        },
    }
}

/// Routes requests to handlers: one route trie for each of GET, POST, PUT
/// and DELETE, filled before serving starts and only read after.
pub struct Server<H> {
    get_routes: Route<H>,
    post_routes: Route<H>,
    put_routes: Route<H>,
    delete_routes: Route<H>,
}

impl<H> View for Server<H> {
    type V = ServerView<H>;

    closed spec fn view(&self) -> ServerView<H> {
        ServerView {
            get: self.get_routes@,
            post: self.post_routes@,
            put: self.put_routes@,
            delete: self.delete_routes@,
        }
    }
}

impl<H> Server<H> {
    pub closed spec fn wf(&self) -> bool {
        &&& self.get_routes.wf()
        &&& self.post_routes.wf()
        &&& self.put_routes.wf()
        &&& self.delete_routes.wf()
    }

    /// A server with no routes.
    pub fn new() -> (r: Self)
        ensures
            r.wf(),
            r@ == (ServerView {
                get: empty_trie::<H>(),
                post: empty_trie::<H>(),
                put: empty_trie::<H>(),
                delete: empty_trie::<H>(),
            }),
    {
        Server {
            get_routes: Route::new(None),
            post_routes: Route::new(None),
            put_routes: Route::new(None),
            delete_routes: Route::new(None),
        }
    }

    /// Registers `handler` for GET requests on `path`, as [`Route::insert`] does.
    pub fn get(&mut self, path: &str, handler: H) -> (r: Result<(), RouteError>)
        requires
            old(self).wf(),
        ensures
            final(self).wf(),
            r == match register_error(old(self)@.get, path@) {
                Some(e) => Err(e),
                None => Ok::<(), RouteError>(()),
            },
            final(self)@ == (ServerView { get: registered(old(self)@.get, path@, handler), ..old(self)@ }),
    {
        self.get_routes.insert(path.to_owned(), handler)
    }

    /// Registers `handler` for POST requests on `path`, as [`Route::insert`] does.
    pub fn post(&mut self, path: &str, handler: H) -> (r: Result<(), RouteError>)
        requires
            old(self).wf(),
        ensures
            final(self).wf(),
            r == match register_error(old(self)@.post, path@) {
                Some(e) => Err(e),
                None => Ok::<(), RouteError>(()),
            },
            final(self)@ == (ServerView { post: registered(old(self)@.post, path@, handler), ..old(self)@ }),
    {
        self.post_routes.insert(path.to_owned(), handler)
    }

    /// Registers `handler` for PUT requests on `path`, as [`Route::insert`] does.
    pub fn put(&mut self, path: &str, handler: H) -> (r: Result<(), RouteError>)
        requires
            old(self).wf(),
        ensures
            final(self).wf(),
            r == match register_error(old(self)@.put, path@) {
                Some(e) => Err(e),
                None => Ok::<(), RouteError>(()),
            },
            final(self)@ == (ServerView { put: registered(old(self)@.put, path@, handler), ..old(self)@ }),
    {
        self.put_routes.insert(path.to_owned(), handler)
    }

    /// Registers `handler` for DELETE requests on `path`, as [`Route::insert`] does.
    pub fn delete(&mut self, path: &str, handler: H) -> (r: Result<(), RouteError>)
        requires
            old(self).wf(),
        ensures
            final(self).wf(),
            r == match register_error(old(self)@.delete, path@) {
                Some(e) => Err(e),
                None => Ok::<(), RouteError>(()),
            },
            final(self)@ == (ServerView {
                delete: registered(old(self)@.delete, path@, handler),
                ..old(self)@
            }),
    {
        self.delete_routes.insert(path.to_owned(), handler)
    }

    /// The route trie of `method`.
    fn routes_for(&self, method: &str) -> (r: Option<&Route<H>>)
        requires
            self.wf(),
        ensures
            match routes_of(self@, method@) {
                Some(m) => r matches Some(t) && t.wf() && t@ == m,
                None => r is None,
            },
    {
        if same_text(method, "GET") {
            Some(&self.get_routes)
        } else if same_text(method, "POST") {
            Some(&self.post_routes)
        } else if same_text(method, "PUT") {
            Some(&self.put_routes)
        } else if same_text(method, "DELETE") {
            Some(&self.delete_routes)
        } else {
            None
        }
    }

    /// The handler for a request of `method` on `path`, with the path
    /// parameters it binds.
    pub fn route(&self, method: &str, path: &str) -> (r: Result<
        (&H, Vec<(String, String)>),
        DispatchError,
    >)
        requires
            self.wf(),
        ensures
            match route_spec(self@, method@, path@) {
                Ok((h, b)) => r matches Ok((rh, rb)) && *rh == h && bindings_view(rb@) == b,
                Err(e) => r matches Err(x) && x == e,
            },
    {
        match self.routes_for(method) {
            None => Err(DispatchError::UnsupportedMethod),
            Some(t) => match t.resolve(path) {
                Ok(found) => Ok(found),
                Err(_) => Err(DispatchError::RouteNotFound),
            },
        }
    }
}

/// What dispatch answers, given what the handler returned.
pub fn handler_outcome(out: Result<Response, String>) -> (r: Result<Response, DispatchError>)
    ensures
        match out {
            Ok(resp) => r == Ok::<Response, DispatchError>(resp),
            Err(cause) => r == Err::<Response, DispatchError>(DispatchError::HandlerFailed(cause)),
        },
{
    match out {
        Ok(resp) => Ok(resp),
        Err(cause) => Err(DispatchError::HandlerFailed(cause)),
    }
}

/// The response that the boundary layer sends for a dispatch error: 404 where
/// no route matched or the method is not supported, 500 where the handler
/// failed.
pub fn error_response(e: &DispatchError) -> (r: Response)
    ensures
        r.status_view() == match e {
            DispatchError::HandlerFailed(_) => HttpStatus::INTERNAL_SERVER_ERROR.status_line(),
            _ => HttpStatus::NOT_FOUND.status_line(),
        },
        r.body_view() == match e {
            DispatchError::HandlerFailed(_) => "Internal Server Error"@,
            _ => "Not Found"@,
        },
{
    match e {
        DispatchError::HandlerFailed(_) => Response::new(
            String::from_str("Internal Server Error"),
            HttpStatus::INTERNAL_SERVER_ERROR.to_string(),
        ),
        _ => Response::new(String::from_str("Not Found"), HttpStatus::NOT_FOUND.to_string()),
    }
}

impl<H: Handler> Server<H> {
    /// Answers a request: the handler that its method and path resolve to is
    /// called with the request and the path parameters bound, and its
    /// response is returned unchanged. Fails with the routing error where
    /// there is no such handler, and with `HandlerFailed` where the handler
    /// fails.
    pub fn dispatch(&self, request: Request) -> (r: Result<Response, DispatchError>)
        requires
            self.wf(),
        ensures
            match route_spec(self@, request.request_view().method, request.request_view().path) {
                Err(e) => r matches Err(x) && x == e,
                Ok(_) => r is Ok || r matches Err(DispatchError::HandlerFailed(_)),
            },
    {
        let found = self.route(request.get_method(), request.get_path());
        match found {
            Err(e) => Err(e),
            Ok((h, params)) => {
                let request = request.with_params(params);
                handler_outcome(h.handle(&request))
            },
        }
    }

    /// Answers a request with the handler's response, or with the response
    /// that [`error_response`] gives for the dispatch error.
    pub fn respond(&self, request: Request) -> (r: Response)
        requires
            self.wf(),
        ensures
            match route_spec(self@, request.request_view().method, request.request_view().path) {
                Err(DispatchError::UnsupportedMethod) | Err(DispatchError::RouteNotFound) => {
                    &&& r.status_view() == HttpStatus::NOT_FOUND.status_line()
                    &&& r.body_view() == "Not Found"@
                },
                _ => true,
            },
    {
        match self.dispatch(request) {
            Ok(resp) => resp,
            Err(e) => error_response(&e),
        }
    }
}

} // verus!
