use http_router::auth::{login_response, Credentials};
use http_router::route::RouteError;
use http_router::server::{
    error_response, handler_outcome, index, DispatchError, Handler, HttpStatus, IRequest,
    IResponse, Index, Request, Response, Server,
};

enum Page {
    Hello,
    Login,
    Echo,
    Broken,
}

fn decode_credentials(body: &str) -> Option<Credentials> {
    let value: serde_json::Value = serde_json::from_str(body).ok()?;
    let username = value.get("username")?.as_str()?.to_string();
    let password = value.get("password")?.as_str()?.to_string();
    Some(Credentials { username, password })
}

impl Handler for Page {
    fn handle(&self, request: &Request) -> Result<Response, String> {
        match self {
            Page::Hello => Ok(index(request)),
            Page::Login => Ok(login_response(decode_credentials(request.get_body()))),
            Page::Echo => {
                let params: Vec<String> =
                    request.get_params().iter().map(|(k, v)| format!("{k}={v}")).collect();
                Ok(Response::new(params.join("&"), HttpStatus::OK.to_string()))
            }
            Page::Broken => Err("handler broke".to_string()),
        }
    }
}

fn request(method: &str, path: &str, body: &str) -> Request {
    Request::new(method.to_string(), path.to_string(), Vec::new(), body.to_string())
}

fn sample_server() -> Server<Page> {
    let mut server: Server<Page> = Server::new();
    assert_eq!(server.get("/", Page::Hello), Ok(()));
    assert_eq!(server.post("/user/login", Page::Login), Ok(()));
    assert_eq!(server.put("/user/:id/name", Page::Echo), Ok(()));
    assert_eq!(server.delete("/book/chapter/:id", Page::Broken), Ok(()));
    server
}

#[test]
fn end_to_end_hello() {
    let server = sample_server();
    let response = server.dispatch(request("GET", "/", "")).unwrap();
    assert_eq!(response.status(), "HTTP/1.1 200 OK");
    assert_eq!(response.body(), "Hello world!");
}

#[test]
fn end_to_end_login_echoes_credentials() {
    let server = sample_server();
    let body = r#"{"username":"a","password":"b"}"#;
    let response = server.dispatch(request("POST", "/user/login", body)).unwrap();
    assert_eq!(response.status(), "HTTP/1.1 200 OK");
    assert_eq!(response.body(), "username: a, password: b");
}

#[test]
fn end_to_end_login_rejects_bad_body() {
    let server = sample_server();
    let response = server.dispatch(request("POST", "/user/login", "nope")).unwrap();
    assert_eq!(response.status(), "HTTP/1.1 400 Bad Request");
    assert_eq!(
        response.body(),
        "Invalid data format, expect {'username': string, 'password': string}"
    );
}

#[test]
fn end_to_end_missing_route_is_404() {
    let server = sample_server();
    assert_eq!(server.dispatch(request("GET", "/missing", "")).err(), Some(DispatchError::RouteNotFound));
    let response = server.respond(request("GET", "/missing", ""));
    assert_eq!(response.status(), "HTTP/1.1 404 Not Found");
    assert_eq!(response.body(), "Not Found");
}

#[test]
fn method_isolation() {
    let mut server: Server<Page> = Server::new();
    assert_eq!(server.get("/a", Page::Hello), Ok(()));
    assert_eq!(server.dispatch(request("POST", "/a", "")).err(), Some(DispatchError::RouteNotFound));
    assert!(server.dispatch(request("GET", "/a", "")).is_ok());
}

#[test]
fn unsupported_method() {
    let server = sample_server();
    assert_eq!(server.dispatch(request("PATCH", "/", "")).err(), Some(DispatchError::UnsupportedMethod));
    assert_eq!(server.dispatch(request("get", "/", "")).err(), Some(DispatchError::UnsupportedMethod));
    assert_eq!(server.respond(request("PATCH", "/", "")).status(), "HTTP/1.1 404 Not Found");
}

#[test]
fn handler_sees_bound_parameters() {
    let server = sample_server();
    let response = server.dispatch(request("PUT", "/user/42/name", "")).unwrap();
    assert_eq!(response.body(), "id=42");
}

#[test]
fn handler_failure_is_reported() {
    let server = sample_server();
    assert_eq!(
        server.dispatch(request("DELETE", "/book/chapter/3", "")).err(),
        Some(DispatchError::HandlerFailed("handler broke".to_string()))
    );
    let response = server.respond(request("DELETE", "/book/chapter/3", ""));
    assert_eq!(response.status(), "HTTP/1.1 500 Internal Server Error");
    assert_eq!(response.body(), "Internal Server Error");
}

#[test]
fn registration_errors_per_method() {
    let mut server = sample_server();
    assert_eq!(server.get("/", Page::Echo), Err(RouteError::DuplicateRoute));
    assert_eq!(server.put("/user/:name/name", Page::Echo), Err(RouteError::ConflictingParameterName));
    assert_eq!(server.post("/x/:", Page::Echo), Err(RouteError::EmptyParameterName));
    assert_eq!(server.get("/user/login", Page::Hello), Ok(()));
}

#[test]
fn route_returns_handler_and_bindings() {
    let server = sample_server();
    let (page, params) = server.route("PUT", "/user/7/name").unwrap();
    assert!(matches!(page, Page::Echo));
    assert_eq!(params, vec![("id".to_string(), "7".to_string())]);
}

#[test]
fn status_lines() {
    assert_eq!(HttpStatus::OK.to_string(), "HTTP/1.1 200 OK");
    assert_eq!(HttpStatus::BAD_REQUEST.to_string(), "HTTP/1.1 400 Bad Request");
    assert_eq!(HttpStatus::NOT_FOUND.to_string(), "HTTP/1.1 404 Not Found");
    assert_eq!(HttpStatus::UNAUTHENTICATED.to_string(), "HTTP/1.1 401 Unauthorized");
    assert_eq!(HttpStatus::UNAUTHORIZED.to_string(), "HTTP/1.1 403 Forbidden");
    assert_eq!(
        HttpStatus::INTERNAL_SERVER_ERROR.to_string(),
        "HTTP/1.1 500 Internal Server Error"
    );
}

#[test]
fn response_accessors() {
    let response = Response::new("héllo".to_string(), "HTTP/1.1 200 OK".to_string());
    assert_eq!(response.len(), 6);
    assert_eq!(response.body(), "héllo");
    assert_eq!(response.status(), "HTTP/1.1 200 OK");
}

#[test]
fn request_accessors() {
    let query = vec![("a".to_string(), "1".to_string())];
    let r = Request::new("GET".to_string(), "/x".to_string(), query.clone(), "body".to_string());
    assert_eq!(r.get_method(), "GET");
    assert_eq!(r.get_path(), "/x");
    assert_eq!(r.get_query(), &query[..]);
    assert_eq!(r.get_body(), "body");
    assert!(r.get_params().is_empty());
}

#[test]
fn index_handler_says_hello() {
    let response = Index.handle(&request("GET", "/", "")).unwrap();
    assert_eq!(response.body(), "Hello world!");
}

#[test]
fn outcome_of_handler() {
    let ok = handler_outcome(Ok(Response::new("x".to_string(), "s".to_string()))).unwrap();
    assert_eq!(ok.body(), "x");
    assert_eq!(
        handler_outcome(Err("c".to_string())).err(),
        Some(DispatchError::HandlerFailed("c".to_string()))
    );
    assert_eq!(error_response(&DispatchError::UnsupportedMethod).status(), "HTTP/1.1 404 Not Found");
}

#[test]
fn login_response_formats() {
    let r = login_response(Some(Credentials { username: "u".to_string(), password: "p".to_string() }));
    assert_eq!(r.body(), "username: u, password: p");
    assert_eq!(r.status(), "HTTP/1.1 200 OK");
    let bad = login_response(None);
    assert_eq!(bad.status(), "HTTP/1.1 400 Bad Request");
}
