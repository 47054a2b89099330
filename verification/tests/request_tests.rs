use epic::http::parser::read_request;
use epic::HTTPError;
use epic::HeaderVal;
use epic::RequestType;
use epic::Version;

#[test]
fn parses_each_recognized_method() {
    let methods = [
        ("GET", RequestType::GET),
        ("HEAD", RequestType::HEAD),
        ("POST", RequestType::POST),
        ("PUT", RequestType::PUT),
        ("DELETE", RequestType::DELETE),
        ("TRACE", RequestType::TRACE),
        ("OPTIONS", RequestType::OPTIONS),
        ("CONNECT", RequestType::CONNECT),
        ("PATCH", RequestType::PATCH),
    ];
    for (name, expected) in methods {
        let input = format!("{} /x HTTP/1.1\r\n\r\n", name).into_bytes();
        let req = read_request(&input).unwrap();
        assert_eq!(req.method, expected);
    }
}

#[test]
fn unknown_method_fails() {
    let input = b"FOO /x HTTP/1.1\r\n\r\n".to_vec();
    let err = read_request(&input).unwrap_err();
    assert_eq!(err, HTTPError::MethodParseError);
}

#[test]
fn end_to_end_request() {
    let input =
        b"GET /index.html HTTP/1.1\r\nContent-Type: text/plain\r\nContent-Length: 5\r\n\r\nHello"
            .to_vec();
    let req = read_request(&input).unwrap();
    assert_eq!(req.method, RequestType::GET);
    assert_eq!(req.resource, "/index.html");
    assert_eq!(req.version, Version::Http11);
    assert_eq!(req.headers.len(), 2);
    assert_eq!(
        req.headers.get("Content-Type"),
        Some(&HeaderVal::Single("text/plain".to_string()))
    );
    assert_eq!(
        req.headers.get("Content-Length"),
        Some(&HeaderVal::Single("5".to_string()))
    );
    assert_eq!(req.body, Some("Hello".to_string()));
}

#[test]
fn head_request_has_no_body_despite_content_length() {
    let input = b"HEAD /x HTTP/1.1\r\nContent-Length: 10\r\n\r\n0123456789".to_vec();
    let req = read_request(&input).unwrap();
    assert_eq!(req.method, RequestType::HEAD);
    assert_eq!(req.body, None);
}

#[test]
fn no_length_headers_means_no_body() {
    let input = b"GET /x HTTP/1.1\r\nAccept: text/html\r\n\r\nleftover".to_vec();
    let req = read_request(&input).unwrap();
    assert_eq!(req.body, None);
}

#[test]
fn transfer_encoding_reads_fallback_window() {
    let mut input = b"POST /x HTTP/1.1\r\nTransfer-Encoding: chunked\r\n\r\n".to_vec();
    input.extend(vec![b'y'; 4096]);
    let req = read_request(&input).unwrap();
    assert_eq!(req.body, Some("y".repeat(4096)));
}

#[test]
fn transfer_encoding_with_short_input_fails() {
    let input = b"POST /x HTTP/1.1\r\nTransfer-Encoding: chunked\r\n\r\nonly-this".to_vec();
    let err = read_request(&input).unwrap_err();
    assert_eq!(err, HTTPError::BodyParsingError);
}

#[test]
fn content_length_truncated_body_fails() {
    let input = b"POST /x HTTP/1.1\r\nContent-Length: 10\r\n\r\nhi".to_vec();
    let err = read_request(&input).unwrap_err();
    assert_eq!(err, HTTPError::BodyParsingError);
}

#[test]
fn content_length_zero_gives_empty_body() {
    let input = b"POST /x HTTP/1.1\r\nContent-Length: 0\r\n\r\n".to_vec();
    let req = read_request(&input).unwrap();
    assert_eq!(req.body, Some(String::new()));
}

#[test]
fn unparsable_content_length_means_no_body() {
    let input = b"POST /x HTTP/1.1\r\nContent-Length: ten\r\n\r\nwhatever".to_vec();
    let req = read_request(&input).unwrap();
    assert_eq!(req.body, None);
}

#[test]
fn oversized_content_length_means_no_body() {
    let input =
        b"POST /x HTTP/1.1\r\nContent-Length: 99999999999999999999999999\r\n\r\nx".to_vec();
    let req = read_request(&input).unwrap();
    assert_eq!(req.body, None);
}

#[test]
fn unknown_version_fails() {
    let input = b"GET /x HTTP/9.9\r\n\r\n".to_vec();
    let err = read_request(&input).unwrap_err();
    assert_eq!(err, HTTPError::VersionParseError);
}

#[test]
fn version_two_literal_uses_its_own_case() {
    let input = b"GET /x Http/2.0\r\n\r\n".to_vec();
    let req = read_request(&input).unwrap();
    assert_eq!(req.version, Version::Http20);
    let upper = b"GET /x HTTP/2.0\r\n\r\n".to_vec();
    let err = read_request(&upper).unwrap_err();
    assert_eq!(err, HTTPError::VersionParseError);
}

#[test]
fn resource_must_be_text() {
    let input = b"GET /\xff\xfe HTTP/1.1\r\n\r\n".to_vec();
    let err = read_request(&input).unwrap_err();
    assert_eq!(err, HTTPError::ResourceParseError);
}

#[test]
fn resource_text_is_decoded() {
    let input = "GET /h\u{e9}llo HTTP/1.1\r\n\r\n".as_bytes().to_vec();
    let req = read_request(&input).unwrap();
    assert_eq!(req.resource, "/h\u{e9}llo");
}

#[test]
fn header_line_without_colon_fails() {
    let input = b"GET /x HTTP/1.1\r\nNoColonHere\r\n\r\n".to_vec();
    let err = read_request(&input).unwrap_err();
    assert_eq!(err, HTTPError::MalformedHeaderLineError);
}

#[test]
fn empty_header_value_fails() {
    let input = b"GET /x HTTP/1.1\r\nKey:\r\n\r\n".to_vec();
    let err = read_request(&input).unwrap_err();
    assert_eq!(err, HTTPError::MalformedHeaderLineError);
}

#[test]
fn repeated_header_overwrites_prior_value() {
    let input = b"GET /x HTTP/1.1\r\nAccept: a\r\nAccept: b\r\n\r\n".to_vec();
    let req = read_request(&input).unwrap();
    assert_eq!(req.headers.len(), 1);
    assert_eq!(req.headers.get("Accept"), Some(&HeaderVal::Single("b".to_string())));
}

#[test]
fn truncated_request_line_fails() {
    let input = b"GET /x".to_vec();
    let err = read_request(&input).unwrap_err();
    assert_eq!(err, HTTPError::ResourceParseError);
}

#[test]
fn list_valued_content_length_means_no_body() {
    let input = b"POST /x HTTP/1.1\r\nContent-Length: 5, 6\r\n\r\nHello!".to_vec();
    let req = read_request(&input).unwrap();
    assert_eq!(req.body, None);
}

#[test]
fn key_that_is_not_text_terminates_the_block() {
    let input = b"GET /x HTTP/1.1\r\n\xff\xfe: v\r\n\r\n".to_vec();
    let req = read_request(&input).unwrap();
    assert_eq!(req.headers.len(), 0);
    assert_eq!(req.body, None);
}
