use http_server::header::parse;
use http_server::header::parse_header_line;
use http_server::header::Method;
use http_server::header::Request;
use http_server::header::Url;
use http_server::header::Version;

#[test]
fn parse_method() {
    let all = [
        ("GET", Method::Get),
        ("GeT", Method::Get),
        ("POST", Method::Post),
        ("PoST", Method::Post),
    ];

    for (input, exp) in all {
        let (m, _) = http_server::header::parse_method(input.as_bytes()).expect("unable to parse");
        assert_eq!(m, exp);
    }
}

#[test]
fn parse_version() {
    let all = ["HTTP/1.1", "hTTP/1.1"];

    for input in all {
        assert!(
            http_server::header::parse_version(input.as_bytes(), 0),
            "unable to parse"
        );
    }
}

#[test]
fn parse_request_line() {
    let s = "GET / HTTP/1.1\r\n";
    let (Request { header, body }, _) = parse(s.as_bytes()).expect("able to parse");
    assert_eq!(body, None);

    assert_eq!(header.method, Method::Get);
    assert_eq!(header.version, Version::Http11);
    assert_eq!(header.url, Url::from("/"));
    assert!(header.headers.is_empty());
}

#[test]
fn parse_request_line_with_query() {
    let s = "GET /something?foo=2 HTTP/1.1\r\n";
    let (Request { header, body }, res) = parse(s.as_bytes()).expect("able to parse");

    assert!(res.is_empty());
    assert_eq!(body, None);

    assert_eq!(header.method, Method::Get);
    assert_eq!(header.version, Version::Http11);
    assert_eq!(header.url, Url::from("/something?foo=2"));
    assert!(header.headers.is_empty());
}

#[test]
fn parse_header_single_line() {
    let input = "Host: localhost:4221\r\n";
    let (host, localhost, _) = parse_header_line(input.as_bytes(), 0)
        .expect("able to parse")
        .expect("a header line");

    assert_eq!("Host", host);
    assert_eq!("localhost:4221", localhost);
}

#[test]
fn parse_header_lines() {
    let input = "Host: localhost:4221\r\nUser-Agent: foobar/1.2.3\r\nAccept: */*\r\n\r\n";
    let (headers, _) =
        http_server::header::parse_header_lines(input.as_bytes(), 0).expect("able to parse");

    assert_eq!(Some(&"localhost:4221".to_string()), headers.get("Host"));
    assert_eq!(Some(&"*/*".to_string()), headers.get("Accept"));
}

#[test]
fn parse_full_request() {
    let input = "GET /user-agent HTTP/1.1\r\nHost: localhost:4221\r\nUser-Agent: foobar/1.2.3\r\nAccept: */*\r\n\r\nSome Body";
    let (Request { header, body }, res) = parse(input.as_bytes()).expect("able to parse");
    assert_eq!(res.len(), 0);

    assert_eq!(Some("Some Body".as_bytes().to_vec()), body);

    assert_eq!(header.method, Method::Get);
    assert_eq!(header.version, Version::Http11);
    assert_eq!(header.url, Url::from("/user-agent"));

    assert_eq!(
        Some(&"localhost:4221".to_string()),
        header.headers.get("Host")
    );
}

#[test]
fn parser_totality() {
    let (Request { header, body }, rest) =
        parse("GET / HTTP/1.1\r\n\r\n".as_bytes()).expect("able to parse");
    assert_eq!(header.method, Method::Get);
    assert_eq!(header.version, Version::Http11);
    assert_eq!(header.url.sections, vec!["/".to_string()]);
    assert_eq!(header.url.query, None);
    assert!(header.headers.is_empty());
    assert_eq!(body, None);
    assert!(rest.is_empty());
}

#[test]
fn query_split() {
    let (Request { header, .. }, _) =
        parse("GET /a?x=1 HTTP/1.1\r\n\r\n".as_bytes()).expect("able to parse");
    assert_eq!(header.url.sections, vec!["a".to_string()]);
    assert_eq!(header.url.query, Some("x=1".to_string()));
}

#[test]
fn header_folding_later_value_wins() {
    let input = "GET / HTTP/1.1\r\nX-Tag: first\r\nX-Tag: second\r\n\r\n";
    let (Request { header, .. }, _) = parse(input.as_bytes()).expect("able to parse");
    assert_eq!(Some(&"second".to_string()), header.headers.get("X-Tag"));
}

#[test]
fn empty_path_sections_are_dropped() {
    let (Request { header, .. }, _) =
        parse("GET //echo///hello HTTP/1.1\r\n\r\n".as_bytes()).expect("able to parse");
    assert_eq!(
        header.url.sections,
        vec!["echo".to_string(), "hello".to_string()]
    );
}

#[test]
fn accept_encoding_negotiated() {
    let input = "GET /echo/x HTTP/1.1\r\nAccept-Encoding: gzip\r\n\r\n";
    let (req, _) = parse(input.as_bytes()).expect("able to parse");
    assert_eq!(
        req.header.accept_encoding,
        Some(http_server::header::Encoding::Gzip)
    );

    let other = "GET /echo/x HTTP/1.1\r\nAccept-Encoding: br\r\n\r\n";
    let (req, _) = parse(other.as_bytes()).expect("able to parse");
    assert_eq!(req.header.accept_encoding, None);
}

#[test]
fn unknown_method_is_an_error() {
    assert!(parse("PATCH / HTTP/1.1\r\n\r\n".as_bytes()).is_err());
}

#[test]
fn unknown_version_is_an_error() {
    assert!(parse("GET / HTTP/2.0\r\n\r\n".as_bytes()).is_err());
}

#[test]
fn missing_request_line_crlf_is_an_error() {
    assert!(parse("GET / HTTP/1.1".as_bytes()).is_err());
}

#[test]
fn header_line_without_separator_is_an_error() {
    assert!(parse("GET / HTTP/1.1\r\nX\r\n\r\n".as_bytes()).is_err());
}

#[test]
fn colon_without_space_is_an_error() {
    assert!(parse("GET / HTTP/1.1\r\nHost:x\r\n\r\n".as_bytes()).is_err());
}

#[test]
fn header_name_cannot_cross_a_line() {
    assert!(parse("GET / HTTP/1.1\r\nX\r\nA: B\r\n\r\n".as_bytes()).is_err());
}

#[test]
fn truncated_header_line_is_an_error() {
    assert!(parse("GET / HTTP/1.1\r\nHost: x".as_bytes()).is_err());
}

#[test]
fn binary_header_value_is_an_error() {
    let mut input = b"GET / HTTP/1.1\r\nA: ".to_vec();
    input.extend_from_slice(&[0xff, 0xfe]);
    input.extend_from_slice(b"\r\n\r\n");
    assert!(parse(&input).is_err());
}
