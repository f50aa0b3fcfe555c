use std::io::Read;

use http_server::header::Version;
use http_server::response::ContentType;
use http_server::response::HeaderSet;
use http_server::response::Headers;
use http_server::response::Response;
use http_server::response::Status;

#[test]
fn test_status_line() {
    let res = Response {
        version: Version::Http11,
        status: Status::Okay,
        headers: Default::default(),
        body: None,
        accept_encoding: None,
    };
    let mut buffer = Vec::new();
    res.write(&mut buffer);
    let exp = "HTTP/1.1 200 OK\r\n\r\n".as_bytes();

    assert_eq!(exp, buffer);
}

#[test]
fn test_with_header() {
    let mut headers = HeaderSet::new();
    headers.insert(Headers::ContentType(ContentType::TextPlain));

    let res = Response {
        version: Version::Http11,
        status: Status::Okay,
        headers,
        body: None,
        accept_encoding: None,
    };
    let mut buffer = Vec::new();
    res.write(&mut buffer);
    let exp = "HTTP/1.1 200 OK\r\nContent-Type: text/plain\r\n\r\n".as_bytes();

    assert_eq!(exp, buffer);
}

#[test]
fn test_with_body() {
    let mut headers = HeaderSet::new();
    headers.insert(Headers::ContentType(ContentType::TextPlain));

    let res = Response {
        version: Version::Http11,
        status: Status::Okay,
        headers,
        body: Some("Somebody once told me!".as_bytes().to_vec()),
        accept_encoding: None,
    };
    let mut buffer = Vec::new();
    res.write(&mut buffer);
    let exp =
        "HTTP/1.1 200 OK\r\nContent-Type: text/plain\r\nContent-Length: 22\r\n\r\nSomebody once told me!".as_bytes();

    assert_eq!(exp, buffer);
}

#[test]
fn statuses_and_reasons() {
    assert_eq!(Status::Okay.code(), "200");
    assert_eq!(Status::Okay.reason(), "OK");
    assert_eq!(Status::Created.code(), "201");
    assert_eq!(Status::Created.reason(), "Created");
    assert_eq!(Status::Forbidden.code(), "403");
    assert_eq!(Status::Forbidden.reason(), "Forbidden");
    assert_eq!(Status::NotFound.code(), "404");
    assert_eq!(Status::NotFound.reason(), "Not Found");
    assert_eq!(Status::InternalServerError.code(), "500");
    assert_eq!(Status::InternalServerError.reason(), "Internal Server Error");
}

#[test]
fn serialize_is_deterministic() {
    let build = || Response {
        version: Version::Http11,
        status: Status::Okay,
        headers: {
            let mut h = HeaderSet::new();
            h.insert(Headers::ContentType(ContentType::TextPlain));
            h
        },
        body: Some(b"hello".to_vec()),
        accept_encoding: Some(http_server::header::Encoding::Gzip),
    };
    let mut first = Vec::new();
    build().write(&mut first);
    let mut second = Vec::new();
    build().write(&mut second);
    assert_eq!(first, second);
}

#[test]
fn gzip_body_decompresses_to_the_plain_text() {
    let res = Response {
        version: Version::Http11,
        status: Status::Okay,
        headers: HeaderSet::new(),
        body: Some(b"hello".to_vec()),
        accept_encoding: Some(http_server::header::Encoding::Gzip),
    };
    let mut buffer = Vec::new();
    res.write(&mut buffer);

    let text = String::from_utf8_lossy(&buffer);
    assert!(text.contains("Content-Encoding: gzip\r\n"));

    let sep = b"\r\n\r\n";
    let pos = buffer
        .windows(sep.len())
        .position(|w| w == sep)
        .expect("a blank line ends the header block");
    let compressed = &buffer[pos + sep.len()..];

    let mut decoder = libflate::gzip::Decoder::new(compressed).expect("a gzip stream");
    let mut plain = Vec::new();
    decoder.read_to_end(&mut plain).expect("decodable body");
    assert_eq!(plain, b"hello");
}
