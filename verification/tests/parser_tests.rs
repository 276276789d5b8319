//! End-to-end tests for the request parser.

use httpcore::error::HttpError;
use httpcore::reader::ByteStream;
use httpcore::request::{parse_header_line, parse_request, parse_start_line, Method, Request};

fn parse(bytes: &[u8]) -> Result<Request, HttpError> {
    let mut stream = ByteStream::new(bytes.to_vec());
    parse_request(&mut stream)
}

fn parse_err(bytes: &[u8]) -> HttpError {
    parse(bytes).unwrap_err()
}

#[test]
fn plain_get_request() {
    let req = parse(b"GET /index.html HTTP/1.1\r\nHost: example.com\r\n\r\n").unwrap();
    assert_eq!(req.method, Method::Get);
    assert_eq!(req.resource, "/index.html");
    assert_eq!(req.headers.len(), 1);
    assert_eq!(
        req.headers.get(&"Host".to_string()),
        Some(&vec!["example.com".to_string()])
    );
    assert_eq!(req.body, Vec::<u8>::new());
}

#[test]
fn every_supported_method_parses() {
    let cases = [
        ("GET", Method::Get),
        ("POST", Method::Post),
        ("PUT", Method::Put),
        ("DELETE", Method::Delete),
    ];
    for (token, method) in cases {
        let input = format!("{} /some/resource HTTP/1.1\r\n\r\n", token);
        let req = parse(input.as_bytes()).unwrap();
        assert_eq!(req.method, method);
        assert_eq!(req.resource, "/some/resource");
    }
}

#[test]
fn version_token_is_optional_and_discarded() {
    let req = parse(b"GET /r\r\n\r\n").unwrap();
    assert_eq!(req.method, Method::Get);
    assert_eq!(req.resource, "/r");
}

#[test]
fn lowercase_method_is_unsupported() {
    assert_eq!(parse_err(b"get / HTTP/1.1\r\n\r\n"), HttpError::UnsupportedMethod);
}

#[test]
fn unknown_method_is_unsupported() {
    assert_eq!(parse_err(b"PATCH / HTTP/1.1\r\n\r\n"), HttpError::UnsupportedMethod);
}

#[test]
fn request_line_without_resource_is_malformed() {
    assert_eq!(parse_err(b"GET\r\n\r\n"), HttpError::MalformedRequestLine);
}

#[test]
fn empty_request_line_is_malformed() {
    assert_eq!(parse_err(b"\r\n\r\n"), HttpError::MalformedRequestLine);
}

#[test]
fn connection_closed_mid_request_line_aborts() {
    assert_eq!(parse_err(b"GET /"), HttpError::ConnectionAborted);
}

#[test]
fn connection_closed_before_blank_line_aborts() {
    assert_eq!(parse_err(b"GET / HTTP/1.1\r\nHost: example.com\r\n"), HttpError::ConnectionAborted);
}

#[test]
fn duplicate_header_values_arrive_in_order() {
    let req = parse(b"GET / HTTP/1.1\r\nX: 1\r\nX: 2\r\n\r\n").unwrap();
    assert_eq!(
        req.headers.get(&"X".to_string()),
        Some(&vec!["1".to_string(), "2".to_string()])
    );
}

#[test]
fn header_names_are_case_sensitive() {
    let req = parse(b"GET / HTTP/1.1\r\nhost: a\r\nHost: b\r\n\r\n").unwrap();
    assert_eq!(req.headers.len(), 2);
    assert_eq!(req.headers.get(&"host".to_string()), Some(&vec!["a".to_string()]));
    assert_eq!(req.headers.get(&"Host".to_string()), Some(&vec!["b".to_string()]));
}

#[test]
fn header_without_separator_is_malformed() {
    assert_eq!(parse_err(b"GET / HTTP/1.1\r\nX-Broken\r\n\r\n"), HttpError::MalformedHeaderLine);
}

#[test]
fn header_with_colon_but_no_space_is_malformed() {
    assert_eq!(parse_err(b"GET / HTTP/1.1\r\nX:1\r\n\r\n"), HttpError::MalformedHeaderLine);
}

#[test]
fn body_follows_content_length() {
    let req = parse(b"POST /submit HTTP/1.1\r\nContent-Length: 5\r\n\r\nhelloEXTRA").unwrap();
    assert_eq!(req.method, Method::Post);
    assert_eq!(req.body, b"hello".to_vec());
}

#[test]
fn missing_content_length_means_empty_body() {
    let req = parse(b"POST / HTTP/1.1\r\n\r\nignored tail").unwrap();
    assert_eq!(req.body, Vec::<u8>::new());
}

#[test]
fn short_body_aborts() {
    assert_eq!(parse_err(b"POST / HTTP/1.1\r\nContent-Length: 5\r\n\r\nhi"), HttpError::ConnectionAborted);
}

#[test]
fn non_numeric_content_length_is_malformed() {
    assert_eq!(parse_err(b"POST / HTTP/1.1\r\nContent-Length: five\r\n\r\n"), HttpError::MalformedHeaderLine);
}

#[test]
fn empty_content_length_is_malformed() {
    assert_eq!(parse_err(b"POST / HTTP/1.1\r\nContent-Length: \r\n\r\n"), HttpError::MalformedHeaderLine);
}

#[test]
fn oversized_content_length_is_malformed() {
    assert_eq!(parse_err(b"POST / HTTP/1.1\r\nContent-Length: 99999999999999999999999999\r\n\r\n"), HttpError::MalformedHeaderLine);
}

#[test]
fn invalid_text_in_request_line_is_a_decoding_error() {
    assert_eq!(parse_err(b"G\xffT / HTTP/1.1\r\n\r\n"), HttpError::DecodingError);
}

#[test]
fn start_line_tolerates_extra_whitespace() {
    let r = parse_start_line(&"  GET   /path  HTTP/1.1 ".to_string()).unwrap();
    assert_eq!(r.0, Method::Get);
    assert_eq!(r.1, "/path");
}

#[test]
fn header_value_keeps_later_separators() {
    let r = parse_header_line(&"a: b: c".to_string()).unwrap();
    assert_eq!(r.0, "a");
    assert_eq!(r.1, "b: c");
}

#[test]
fn header_name_may_be_empty() {
    let r = parse_header_line(&": v".to_string()).unwrap();
    assert_eq!(r.0, "");
    assert_eq!(r.1, "v");
}
