use http_router::path::{same_text, split_chars};
use http_router::server::{IRequest, Response};
use http_router::server_utils::{
    content_length, decimal_text, parse_decimal, parse_header_line, parse_query_parameters,
    parse_request, serialize_response, split_once_char, trim_text, ParseError,
};

fn pairs(v: &[(&str, &str)]) -> Vec<(String, String)> {
    v.iter().map(|(a, b)| (a.to_string(), b.to_string())).collect()
}

#[test]
fn parse_request_without_query() {
    let r = parse_request(&"GET /user/1 HTTP/1.1\r\n".to_string()).unwrap();
    assert_eq!(r.get_method(), "GET");
    assert_eq!(r.get_path(), "/user/1");
    assert!(r.get_query().is_empty());
    assert_eq!(r.get_body(), "");
}

#[test]
fn parse_request_with_query() {
    let r = parse_request(&"POST /search?q=rust&q=verus&page=2 HTTP/1.1".to_string()).unwrap();
    assert_eq!(r.get_method(), "POST");
    assert_eq!(r.get_path(), "/search");
    assert_eq!(r.get_query(), &pairs(&[("q", "rust"), ("q", "verus"), ("page", "2")])[..]);
}

#[test]
fn parse_request_rejects_bad_line() {
    assert_eq!(parse_request(&"GET /".to_string()).err(), Some(ParseError::MalformedRequestLine));
    assert_eq!(
        parse_request(&"GET  / HTTP/1.1".to_string()).err(),
        Some(ParseError::MalformedRequestLine)
    );
}

#[test]
fn parse_request_rejects_bad_query() {
    assert_eq!(parse_request(&"GET /a?x HTTP/1.1".to_string()).err(), Some(ParseError::MalformedQuery));
    assert_eq!(parse_request(&"GET /a?x=1=2 HTTP/1.1".to_string()).err(), Some(ParseError::MalformedQuery));
    assert_eq!(parse_request(&"GET /a? HTTP/1.1".to_string()).err(), Some(ParseError::MalformedQuery));
}

#[test]
fn query_keeps_first_question_mark_split() {
    let r = parse_request(&"GET /a?x=? HTTP/1.1".to_string()).unwrap();
    assert_eq!(r.get_path(), "/a");
    assert_eq!(r.get_query(), &pairs(&[("x", "?")])[..]);
}

#[test]
fn query_parameters() {
    assert_eq!(parse_query_parameters("a=1&b=").unwrap(), pairs(&[("a", "1"), ("b", "")]));
    assert_eq!(parse_query_parameters("a=1&&b=2"), Err(ParseError::MalformedQuery));
}

#[test]
fn split_helpers() {
    assert_eq!(split_chars("a,b,,c", ','), vec!["a", "b", "", "c"]);
    assert_eq!(split_chars("", ','), vec![""]);
    assert_eq!(split_once_char("k:v:w", ':'), Some(("k".to_string(), "v:w".to_string())));
    assert_eq!(split_once_char("kv", ':'), None);
    assert!(same_text("abc", "abc"));
    assert!(!same_text("abc", "abd"));
    assert!(!same_text("abc", "ab"));
}

#[test]
fn decimal_numerals() {
    assert_eq!(decimal_text(0), "0");
    assert_eq!(decimal_text(7), "7");
    assert_eq!(decimal_text(10), "10");
    assert_eq!(decimal_text(1234567890), "1234567890");
    assert_eq!(decimal_text(usize::MAX), usize::MAX.to_string());
}

#[test]
fn response_wire_format() {
    let response = Response::new("Hello world!".to_string(), "HTTP/1.1 200 OK".to_string());
    assert_eq!(
        serialize_response(&response),
        "HTTP/1.1 200 OK\r\nContent-Length: 12\r\n\r\nHello world!"
    );
    let accented = Response::new("é".to_string(), "HTTP/1.1 200 OK".to_string());
    assert_eq!(serialize_response(&accented), "HTTP/1.1 200 OK\r\nContent-Length: 2\r\n\r\né");
}

#[test]
fn header_lines() {
    assert_eq!(
        parse_header_line("Content-Length: 12\r\n"),
        Some(("Content-Length".to_string(), "12".to_string()))
    );
    assert_eq!(parse_header_line("Host:  a:8000 "), Some(("Host".to_string(), "a:8000".to_string())));
    assert_eq!(parse_header_line("no colon"), None);
    assert_eq!(trim_text(" \t x y \r\n"), "x y");
    assert_eq!(trim_text("\r\n"), "");
}

#[test]
fn content_length_of_headers() {
    assert_eq!(content_length(&pairs(&[("Host", "a"), ("content-LENGTH", "31")])), 31);
    assert_eq!(content_length(&pairs(&[("Content-Length", "3"), ("Content-Length", "5")])), 5);
    assert_eq!(content_length(&pairs(&[("Content-Length", "x")])), 0);
    assert_eq!(content_length(&pairs(&[("Host", "a")])), 0);
    assert_eq!(content_length(&Vec::new()), 0);
    assert_eq!(parse_decimal("0042"), Some(42));
    assert_eq!(parse_decimal(""), None);
    assert_eq!(parse_decimal("+1"), None);
    assert_eq!(parse_decimal("99999999999999999999999"), None);
    assert_eq!(parse_decimal(&usize::MAX.to_string()), Some(usize::MAX));
}
