use direct_http::bytes::{eq_ignore_case, parse_decimal, position, trimmed};
use direct_http::request::{is_http101, parse_headers, parse_method, parse_path};
use direct_http::text::{char_position, split_text, text_contains, text_eq};
use direct_http::{Method, Request};

#[test]
fn parses_a_plain_get() {
    let request = Request::new(b"GET /users/42 HTTP/1.1\r\nHost: Example.COM\r\n\r\n").unwrap();
    assert_eq!(request.method, Method::GET);
    assert_eq!(request.path, "users/42");
    assert_eq!(request.headers.get("host").unwrap(), "example.com");
    assert_eq!(request.headers.len(), 1);
    assert!(request.slugs.is_empty());
    assert!(request.body.is_none());
}

#[test]
fn recovers_every_method() {
    let methods = [
        ("GET", Method::GET),
        ("POST", Method::POST),
        ("PUT", Method::PUT),
        ("DELETE", Method::DELETE),
        ("HEAD", Method::HEAD),
        ("OPTIONS", Method::OPTIONS),
        ("TRACE", Method::TRACE),
        ("CONNECT", Method::CONNECT),
        ("PATCH", Method::PATCH),
    ];
    for (token, method) in methods {
        let text = format!("{} /a/b HTTP/1.1\r\nX-Key: Some Value\r\n\r\n", token);
        let request = Request::new(text.as_bytes()).unwrap();
        assert_eq!(request.method, method);
        assert_eq!(request.path, "a/b");
        assert_eq!(request.headers.get("x-key").unwrap(), "some value");
        assert_eq!(method.name(), token);
        assert_eq!(Method::from_index(method.index()), method);
    }
}

#[test]
fn unknown_method_is_no_request() {
    assert!(Request::new(b"FETCH / HTTP/1.1\r\n\r\n").is_none());
    assert!(Request::new(b"get / HTTP/1.1\r\n\r\n").is_none());
    assert!(Request::new(b"GETS / HTTP/1.1\r\n\r\n").is_none());
    assert!(Request::new(b" / HTTP/1.1\r\n\r\n").is_none());
    assert!(Request::new(b"").is_none());
    assert!(Request::new(b"GET").is_none());
}

#[test]
fn missing_or_wrong_protocol_is_no_request() {
    assert!(Request::new(b"GET /\r\n\r\n").is_none());
    assert!(Request::new(b"GET / \r\n\r\n").is_none());
    assert!(Request::new(b"GET / HTTP/1.0\r\n\r\n").is_none());
    assert!(Request::new(b"GET / HTTP/2\r\n\r\n").is_none());
    assert!(Request::new(b"GET / HTTP/1.1 \r\n\r\n").is_none());
    assert!(Request::new(b"GET / HTTP/1.1").is_none());
}

#[test]
fn protocol_is_read_in_any_letter_case() {
    let request = Request::new(b"GET /x http/1.1\r\n\r\n").unwrap();
    assert_eq!(request.path, "x");
    assert!(Request::new(b"GET /x HtTp/1.1\r\n\r\n").is_some());
}

#[test]
fn empty_path_token_is_no_request() {
    assert!(Request::new(b"GET  HTTP/1.1\r\n\r\n").is_none());
}

#[test]
fn path_loses_its_first_byte_only() {
    assert_eq!(Request::new(b"GET / HTTP/1.1\r\n\r\n").unwrap().path, "");
    assert_eq!(Request::new(b"GET //a HTTP/1.1\r\n\r\n").unwrap().path, "/a");
    assert_eq!(Request::new(b"OPTIONS * HTTP/1.1\r\n\r\n").unwrap().path, "");
    assert_eq!(Request::new(b"GET /A/b?C=d HTTP/1.1\r\n\r\n").unwrap().path, "A/b?C=d");
}

#[test]
fn later_header_replaces_earlier_one() {
    let request =
        Request::new(b"GET / HTTP/1.1\r\nAccept: a\r\nACCEPT: b\r\naccept:   C  \r\n\r\n").unwrap();
    assert_eq!(request.headers.len(), 1);
    assert_eq!(request.headers.get("accept").unwrap(), "c");
}

#[test]
fn header_values_are_trimmed_and_lowered() {
    let request = Request::new(
        b"GET / HTTP/1.1\r\nA:no-space\r\nB: \t padded \t \r\nC:\r\nno colon here\r\nD: x: y\r\n\r\n",
    )
    .unwrap();
    assert_eq!(request.headers.get("a").unwrap(), "no-space");
    assert_eq!(request.headers.get("b").unwrap(), "padded");
    assert_eq!(request.headers.get("c").unwrap(), "");
    assert_eq!(request.headers.get("d").unwrap(), "x: y");
    assert_eq!(request.headers.len(), 4);
}

#[test]
fn empty_line_ends_the_header_block() {
    let request = Request::new(b"GET / HTTP/1.1\r\n\r\nNot: a header\r\n").unwrap();
    assert!(request.headers.is_empty());
    let request = Request::new(b"GET / HTTP/1.1\r\nA: 1\r\n\r\nB: 2\r\n").unwrap();
    assert_eq!(request.headers.len(), 1);
}

#[test]
fn header_block_may_end_with_the_buffer() {
    let request = Request::new(b"GET / HTTP/1.1\r\nA: 1\r\nB: 2").unwrap();
    assert_eq!(request.headers.len(), 1);
    assert_eq!(request.headers.get("a").unwrap(), "1");
    let request = Request::new(b"GET / HTTP/1.1\r").unwrap();
    assert!(request.headers.is_empty());
    let request = Request::new(b"GET / HTTP/1.1\r\nA: 1\r").unwrap();
    assert_eq!(request.headers.get("a").unwrap(), "1");
}

#[test]
fn body_of_the_declared_length_is_kept() {
    let request = Request::new(
        b"POST /items HTTP/1.1\r\nContent-Type: application/json\r\nContent-Length: 13\r\n\r\n{\"name\":\"ab\"}",
    )
    .unwrap();
    assert_eq!(request.body.as_deref(), Some("{\"name\":\"ab\"}"));
    assert_eq!(request.headers.get("content-length").unwrap(), "13");
}

#[test]
fn body_of_another_length_is_dropped() {
    let short = Request::new(
        b"POST /items HTTP/1.1\r\nContent-Type: application/json\r\nContent-Length: 13\r\n\r\n{\"name\":\"a\"}",
    )
    .unwrap();
    assert!(short.body.is_none());
    let long = Request::new(
        b"POST /items HTTP/1.1\r\nContent-Type: application/json\r\nContent-Length: 13\r\n\r\n{\"name\":\"abc\"}",
    )
    .unwrap();
    assert!(long.body.is_none());
    let huge = Request::new(
        b"POST /items HTTP/1.1\r\nContent-Type: application/json\r\nContent-Length: 99999\r\n\r\n{}",
    )
    .unwrap();
    assert!(huge.body.is_none());
}

#[test]
fn body_is_read_for_json_only() {
    let request = Request::new(
        b"POST /items HTTP/1.1\r\nContent-Type: text/plain\r\nContent-Length: 2\r\n\r\nhi",
    )
    .unwrap();
    assert!(request.body.is_none());
    let request = Request::new(b"POST /items HTTP/1.1\r\nContent-Length: 2\r\n\r\nhi").unwrap();
    assert!(request.body.is_none());
    let request = Request::new(
        b"POST /items HTTP/1.1\r\nContent-Type: application/json; charset=utf-8\r\nContent-Length: 2\r\n\r\n{}",
    )
    .unwrap();
    assert!(request.body.is_none());
}

#[test]
fn json_without_a_usable_length_is_no_request() {
    assert!(Request::new(b"POST / HTTP/1.1\r\nContent-Type: application/json\r\n\r\n{}").is_none());
    assert!(Request::new(
        b"POST / HTTP/1.1\r\nContent-Type: application/json\r\nContent-Length: two\r\n\r\n{}"
    )
    .is_none());
    assert!(Request::new(
        b"POST / HTTP/1.1\r\nContent-Type: application/json\r\nContent-Length: -2\r\n\r\n{}"
    )
    .is_none());
    assert!(Request::new(
        b"POST / HTTP/1.1\r\nContent-Type: application/json\r\nContent-Length:\r\n\r\n"
    )
    .is_none());
    assert!(Request::new(
        b"POST / HTTP/1.1\r\nContent-Type: application/json\r\nContent-Length: 99999999999999999999999999\r\n\r\n{}"
    )
    .is_none());
}

#[test]
fn length_may_carry_a_plus_and_zeros() {
    let request = Request::new(
        b"POST / HTTP/1.1\r\nContent-Type: Application/JSON\r\nContent-Length: +002\r\n\r\n{}",
    )
    .unwrap();
    assert_eq!(request.body.as_deref(), Some("{}"));
    let request = Request::new(
        b"POST / HTTP/1.1\r\nContent-Type: application/json\r\nContent-Length: 0\r\n\r\n",
    )
    .unwrap();
    assert_eq!(request.body.as_deref(), Some(""));
}

#[test]
fn bytes_that_are_not_text_are_replaced() {
    let request = Request::new(b"GET /caf\xc3\xa9/\xff HTTP/1.1\r\nX: \xfe\r\n\r\n").unwrap();
    assert_eq!(request.path, "caf\u{e9}/\u{fffd}");
    assert_eq!(request.headers.get("x").unwrap(), "\u{fffd}");
}

#[test]
fn bearer_token_is_the_second_piece() {
    let with = |value: &str| {
        let text = format!("GET / HTTP/1.1\r\nAuthorization: {}\r\n\r\n", value);
        Request::new(text.as_bytes()).unwrap().bearer_token()
    };
    assert_eq!(with("Bearer abc123"), Some("abc123".to_string()));
    assert_eq!(with("bearer ABC def"), Some("abc".to_string()));
    assert_eq!(with("bearer  x"), Some("".to_string()));
    assert_eq!(with("bearer"), None);
    assert_eq!(with("basic abc"), None);
    assert_eq!(with("bearerx abc"), None);
    assert_eq!(with(""), None);
    assert_eq!(Request::new(b"GET / HTTP/1.1\r\n\r\n").unwrap().bearer_token(), None);
}

#[test]
fn decode_reads_the_body_as_json() {
    let request = Request::new(
        b"POST / HTTP/1.1\r\nContent-Type: application/json\r\nContent-Length: 9\r\n\r\n{\"a\": 12}",
    )
    .unwrap();
    let value = request.decode().ok().unwrap();
    assert_eq!(value.get("a").and_then(|a| a.as_i64()), Some(12));
}

#[test]
fn decode_without_json_is_a_bad_request() {
    let expected = "{\"status\":400,\"message\":\"Corpo da requisi\u{e7}\u{e3}o inv\u{e1}lido.\",\"data\":null}";
    let broken = Request::new(
        b"POST / HTTP/1.1\r\nContent-Type: application/json\r\nContent-Length: 5\r\n\r\n{\"a\":",
    )
    .unwrap();
    assert_eq!(broken.decode().err().unwrap().body(), expected);
    let empty = Request::new(b"GET / HTTP/1.1\r\n\r\n").unwrap();
    assert_eq!(empty.decode().err().unwrap().body(), expected);
}

#[test]
fn line_parsers_give_their_offsets() {
    assert_eq!(parse_method(b"PATCH /x"), Some((Method::PATCH, 6)));
    assert_eq!(parse_method(b"PATCH"), None);
    assert_eq!(parse_path(b"/a/b rest"), Some(("a/b".to_string(), 5)));
    assert_eq!(parse_path(b" rest"), None);
    assert_eq!(parse_path(b"/a/b"), None);
    assert_eq!(is_http101(b"HTTP/1.1\r\nrest"), Some(10));
    assert_eq!(is_http101(b"HTTP/1.1\r"), Some(9));
    assert_eq!(is_http101(b"HTTP/1.1"), None);
    assert_eq!(is_http101(b"HTTP/1.2\r\n"), None);
    let (headers, end) = parse_headers(b"A: 1\r\nB: 2\r\n\r\nbody");
    assert_eq!(end, 14);
    assert_eq!(headers.len(), 2);
    let (headers, end) = parse_headers(b"A: 1\r\nB: 2");
    assert_eq!(end, 6);
    assert_eq!(headers.len(), 1);
}

#[test]
fn byte_helpers() {
    assert_eq!(position(b"a b c", b' '), Some(1));
    assert_eq!(position(b"abc", b' '), None);
    assert_eq!(position(b"", b' '), None);
    assert_eq!(trimmed(b" \t a b \r\n"), b"a b");
    assert_eq!(trimmed(b"   "), b"");
    assert_eq!(trimmed(b""), b"");
    assert!(eq_ignore_case(b"HtTp/1.1", b"http/1.1"));
    assert!(!eq_ignore_case(b"http/1.1", b"http/1.0"));
    assert!(!eq_ignore_case(b"http", b"http/1.1"));
    assert_eq!(parse_decimal(b"0"), Some(0));
    assert_eq!(parse_decimal(b"+17"), Some(17));
    assert_eq!(parse_decimal(b"0012"), Some(12));
    assert_eq!(parse_decimal(b""), None);
    assert_eq!(parse_decimal(b"+"), None);
    assert_eq!(parse_decimal(b"1 "), None);
    assert_eq!(parse_decimal(b"-1"), None);
    assert_eq!(parse_decimal(b"1a"), None);
    assert_eq!(parse_decimal(usize::MAX.to_string().as_bytes()), Some(usize::MAX));
    assert_eq!(parse_decimal(format!("{}0", usize::MAX).as_bytes()), None);
}

#[test]
fn text_is_split_at_every_separator() {
    assert_eq!(split_text("a/b/c", '/'), vec!["a", "b", "c"]);
    assert_eq!(split_text("", '/'), vec![""]);
    assert_eq!(split_text("/", '/'), vec!["", ""]);
    assert_eq!(split_text("/a//b/", '/'), vec!["", "a", "", "b", ""]);
    assert_eq!(split_text("caf\u{e9}/\u{1f600}/x", '/'), vec!["caf\u{e9}", "\u{1f600}", "x"]);
}

#[test]
fn text_helpers() {
    assert!(text_contains("a connection: keep-alive b", "connection: keep-alive"));
    assert!(text_contains("abc", ""));
    assert!(text_contains("", ""));
    assert!(text_contains("abc", "abc"));
    assert!(text_contains("xabc", "abc"));
    assert!(!text_contains("ab", "abc"));
    assert!(!text_contains("abd abx", "abc"));
    assert!(text_eq("caf\u{e9}", "caf\u{e9}"));
    assert!(!text_eq("cafe", "caf\u{e9}"));
    assert_eq!(char_position("caf\u{e9} x", ' '), Some(4));
    assert_eq!(char_position("cafe", ' '), None);
}

#[test]
fn headers_are_lowered_beyond_ascii() {
    let request = Request::new(
        "GET / HTTP/1.1\r\nA: \u{c9}\r\n\u{c9}TAG: \u{c0} La Carte \r\nStreet: \u{39f}\u{394}\u{39f}\u{3a3}\r\n\r\n"
            .as_bytes(),
    )
    .unwrap();
    assert_eq!(request.headers.get("a").unwrap(), "\u{e9}");
    assert_eq!(request.headers.get("\u{e9}tag").unwrap(), "\u{e0} la carte");
    assert_eq!(request.headers.get("street").unwrap(), "\u{3bf}\u{3b4}\u{3bf}\u{3c2}");
    assert!(request.headers.get("\u{c9}TAG").is_none());
    assert_eq!(request.headers.len(), 3);
}

#[test]
fn later_header_replaces_earlier_one_beyond_ascii() {
    let request =
        Request::new("GET / HTTP/1.1\r\n\u{c9}: 1\r\n\u{e9}: 2\r\n\r\n".as_bytes()).unwrap();
    assert_eq!(request.headers.len(), 1);
    assert_eq!(request.headers.get("\u{e9}").unwrap(), "2");
}
