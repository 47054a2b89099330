use epic::http::parser::BodyParser;
use epic::http::parser::EOLParser;
use epic::http::parser::HeaderKeyParser;
use epic::http::parser::HeaderValParser;
use epic::http::parser::Parser;
use epic::http::parser::SPParser;
use epic::http::parser::read_body;
use epic::http::parser::read_headers;
use epic::http::parser::read_req_line;
use epic::http::parser::read_request_type;
use epic::http::parser::read_resource;
use epic::http::parser::read_status_code;
use epic::http::parser::read_status_line;
use epic::http::parser::read_version;
use epic::Error;
use epic::HeaderVal;
use epic::Headers;
use epic::RequestType;
use epic::Version;

#[test]
fn comma_list_value_becomes_multi() {
    let mut parser = HeaderValParser::new();
    let input = b" a, b, c\r\n".to_vec();
    let (val, p) = parser.read_req_component(&input, 0).unwrap();
    assert_eq!(
        val,
        HeaderVal::Multi(vec!["a".to_string(), "b".to_string(), "c".to_string()])
    );
    assert_eq!(p, input.len());
}

#[test]
fn single_token_value_stays_single() {
    let mut parser = HeaderValParser::new();
    let input = b" a\r\n".to_vec();
    let (val, _) = parser.read_req_component(&input, 0).unwrap();
    assert_eq!(val, HeaderVal::Single("a".to_string()));
}

#[test]
fn quoted_comma_is_not_a_delimiter() {
    let mut parser = HeaderValParser::new();
    let input = b"\"a, b\"\r\n".to_vec();
    let (val, _) = parser.read_req_component(&input, 0).unwrap();
    assert_eq!(val, HeaderVal::Single("a, b".to_string()));
}

#[test]
fn empty_quoted_value_is_absent() {
    let mut parser = HeaderValParser::new();
    let input = b"\"\"\r\n".to_vec();
    let (val, _) = parser.read_req_component(&input, 0).unwrap();
    assert_eq!(val, HeaderVal::Absent);
}

#[test]
fn value_cr_outside_token_fails() {
    let mut parser = HeaderValParser::new();
    let input = b"a,\r\n".to_vec();
    assert!(parser.read_req_component(&input, 0).is_none());
}

#[test]
fn header_val_to_string_flattens() {
    assert_eq!(HeaderVal::Absent.to_string(), "");
    assert_eq!(HeaderVal::Single("abc".to_string()).to_string(), "abc");
    assert_eq!(
        HeaderVal::Multi(vec!["ab".to_string(), "cd".to_string()]).to_string(),
        "abcd"
    );
}

#[test]
fn headers_insert_get_and_overwrite() {
    let mut h = Headers::new();
    assert_eq!(h.len(), 0);
    h.insert("A".to_string(), HeaderVal::Single("1".to_string()));
    h.insert("B".to_string(), HeaderVal::Single("2".to_string()));
    assert_eq!(h.len(), 2);
    h.insert("A".to_string(), HeaderVal::Single("3".to_string()));
    assert_eq!(h.len(), 2);
    assert_eq!(h.get("A"), Some(&HeaderVal::Single("3".to_string())));
    assert_eq!(h.get("B"), Some(&HeaderVal::Single("2".to_string())));
    assert_eq!(h.get("C"), None);
}

#[test]
fn sp_parser_reads_until_space() {
    let mut parser = SPParser::new();
    let input = b"GET /x".to_vec();
    let (tok, p) = parser.read_req_component(&input, 0).unwrap();
    assert_eq!(tok, b"GET".to_vec());
    assert_eq!(p, 4);
}

#[test]
fn sp_parser_fails_at_end_of_input() {
    let mut parser = SPParser::new();
    let input = b"GET".to_vec();
    assert!(parser.read_req_component(&input, 0).is_none());
}

#[test]
fn eol_parser_reads_until_crlf() {
    let mut parser = EOLParser::new();
    let input = b"reason\r\nX".to_vec();
    let (tok, p) = parser.read_req_component(&input, 0).unwrap();
    assert_eq!(tok, b"reason".to_vec());
    assert_eq!(p, 8);
}

#[test]
fn eol_parser_rejects_lone_cr_and_lone_lf() {
    let mut parser = EOLParser::new();
    assert!(parser.read_req_component(&b"bad\rX".to_vec(), 0).is_none());
    assert!(parser.read_req_component(&b"bad\nX".to_vec(), 0).is_none());
}

#[test]
fn key_parser_reads_until_colon() {
    let mut parser = HeaderKeyParser::new();
    let input = b"Content-Type: text/plain".to_vec();
    let (tok, p) = parser.read_req_component(&input, 0).unwrap();
    assert_eq!(tok, b"Content-Type".to_vec());
    assert_eq!(p, 13);
}

#[test]
fn key_parser_blank_line_yields_empty_token() {
    let mut parser = HeaderKeyParser::new();
    let input = b"\r\nrest".to_vec();
    let (tok, p) = parser.read_req_component(&input, 0).unwrap();
    assert_eq!(tok, Vec::<u8>::new());
    assert_eq!(p, 2);
}

#[test]
fn key_parser_rejects_cr_after_content() {
    let mut parser = HeaderKeyParser::new();
    let input = b"NoColon\r\nrest".to_vec();
    assert!(parser.read_req_component(&input, 0).is_none());
}

#[test]
fn body_parser_reads_exact_length() {
    let mut parser = BodyParser::new(5);
    let input = b"HelloWorld".to_vec();
    let (tok, p) = parser.read_req_component(&input, 0).unwrap();
    assert_eq!(tok, b"Hello".to_vec());
    assert_eq!(p, 5);
}

#[test]
fn body_parser_fails_on_short_input() {
    let mut parser = BodyParser::new(5);
    let input = b"Hi".to_vec();
    assert!(parser.read_req_component(&input, 0).is_none());
}

#[test]
fn oversized_tokens_are_refused() {
    let mut input = vec![b'a'; 4097];
    input.push(b' ');
    let mut parser = SPParser::new();
    assert!(parser.read_req_component(&input, 0).is_none());

    let mut exact = vec![b'a'; 4096];
    exact.push(b' ');
    let mut parser = SPParser::new();
    let (tok, _) = parser.read_req_component(&exact, 0).unwrap();
    assert_eq!(tok.len(), 4096);
}

#[test]
fn read_request_type_maps_tokens() {
    let input = b"PATCH /x".to_vec();
    let (m, p) = read_request_type(&input, 0).unwrap();
    assert_eq!(m, RequestType::PATCH);
    assert_eq!(p, 6);
    assert!(read_request_type(&b"FOO /x".to_vec(), 0).is_none());
}

#[test]
fn read_resource_and_status_code() {
    let (res, p) = read_resource(&b"/index.html ".to_vec(), 0).unwrap();
    assert_eq!(res, "/index.html");
    assert_eq!(p, 12);

    let (code, _) = read_status_code(&b"404 ".to_vec(), 0).unwrap();
    assert_eq!(code, 404);
    assert!(read_status_code(&b"40 ".to_vec(), 0).is_none());
}

#[test]
fn read_version_works_with_both_delimiters() {
    let mut eol = EOLParser::new();
    let (v, p) = read_version(&b"HTTP/1.0\r\n".to_vec(), 0, &mut eol).unwrap();
    assert_eq!(v, Version::Http10);
    assert_eq!(p, 10);

    let mut sp = SPParser::new();
    let (v, p) = read_version(&b"HTTP/0.9 200".to_vec(), 0, &mut sp).unwrap();
    assert_eq!(v, Version::Http09);
    assert_eq!(p, 9);
}

#[test]
fn read_req_line_and_status_line() {
    let (m, res, v, p) = read_req_line(&b"GET /x HTTP/1.1\r\nrest".to_vec(), 0).unwrap();
    assert_eq!(m, RequestType::GET);
    assert_eq!(res, "/x");
    assert_eq!(v, Version::Http11);
    assert_eq!(p, 17);

    let (v, code, reason, p) = read_status_line(&b"HTTP/1.1 200 OK\r\nrest".to_vec(), 0).unwrap();
    assert_eq!(v, Version::Http11);
    assert_eq!(code, 200);
    assert_eq!(reason, "OK");
    assert_eq!(p, 17);

    let err = read_req_line(&b"FOO /x HTTP/1.1\r\n".to_vec(), 0).unwrap_err();
    assert_eq!(err, Error::MethodParseError);
}

#[test]
fn read_headers_collects_block() {
    let input = b"A: 1\r\nB: x, y\r\n\r\nbody".to_vec();
    let (h, p) = read_headers(&input, 0).unwrap();
    assert_eq!(h.len(), 2);
    assert_eq!(h.get("A"), Some(&HeaderVal::Single("1".to_string())));
    assert_eq!(
        h.get("B"),
        Some(&HeaderVal::Multi(vec!["x".to_string(), "y".to_string()]))
    );
    assert_eq!(p, 17);

    let err = read_headers(&b"A 1\r\n\r\n".to_vec(), 0).unwrap_err();
    assert_eq!(err, Error::MalformedHeaderLineError);
}

#[test]
fn read_body_decodes_text() {
    let input = b"Hello world".to_vec();
    let (b, p) = read_body(&input, 0, 5).unwrap();
    assert_eq!(b, "Hello");
    assert_eq!(p, 5);
    assert!(read_body(&input, 0, 100).is_none());
}

#[test]
fn read_body_with_invalid_utf8_yields_empty_string() {
    let input = b"\xff\xfe\xfd".to_vec();
    let (b, p) = read_body(&input, 0, 3).unwrap();
    assert_eq!(b, "");
    assert_eq!(p, 3);
}

#[test]
fn whitespace_around_value_tokens_is_trimmed() {
    let mut parser = HeaderValParser::new();
    let input = b"  text/plain\r\n".to_vec();
    let (val, _) = parser.read_req_component(&input, 0).unwrap();
    assert_eq!(val, HeaderVal::Single("text/plain".to_string()));
}

#[test]
fn error_description_names_the_production() {
    assert_eq!(Error::MethodParseError.description(), "MethodParseError");
    assert_eq!(Error::ResourceParseError.description(), "ResourceParseError");
    assert_eq!(Error::VersionParseError.description(), "VersionParseError");
    assert_eq!(
        Error::MalformedHeaderLineError.description(),
        "MalformedHeaderLineError"
    );
    assert_eq!(Error::BodyParsingError.description(), "BodyParsingError");
    assert_eq!(Error::StatusCodeParseError.description(), "StatusCodeParseError");
    assert_eq!(
        Error::StatusReasonParseError.description(),
        "StatusReasonParseError"
    );
}

#[test]
fn tab_inside_value_is_trimmed_at_the_edges() {
    let mut parser = HeaderValParser::new();
    let input = b"\ta\tb\t\r\n".to_vec();
    let (val, _) = parser.read_req_component(&input, 0).unwrap();
    assert_eq!(val, HeaderVal::Single("a\tb".to_string()));
}
