use std::io::Read;

use http_server::header::parse;
use http_server::header::Request;
use http_server::processing::files_get_response;
use http_server::processing::files_post_response;
use http_server::processing::keep_alive;
use http_server::processing::ReadOutcome;
use http_server::processing::Routed;
use http_server::processing::Router;
use http_server::response::Status;

fn request(text: &str) -> Request {
    let (req, _) = parse(text.as_bytes()).expect("able to parse");
    req
}

fn done(routed: Routed) -> http_server::response::Response {
    match routed {
        Routed::Done(resp) => resp,
        other => panic!("expected a finished response, got {:?}", other),
    }
}

#[test]
fn echo_route() {
    let req = request("GET /echo/hello HTTP/1.1\r\n\r\n");
    let router = Router { directory: None };
    let resp = done(router.process(&req));
    assert_eq!(resp.status, Status::Okay);
    assert_eq!(resp.body, Some(b"hello".to_vec()));

    let mut buffer = Vec::new();
    resp.write(&mut buffer);
    let exp = "HTTP/1.1 200 OK\r\nContent-Type: text/plain\r\nContent-Length: 5\r\n\r\nhello";
    assert_eq!(exp.as_bytes(), buffer);
}

#[test]
fn echo_without_a_segment_is_not_found() {
    let req = request("GET /echo HTTP/1.1\r\n\r\n");
    let router = Router { directory: None };
    let resp = done(router.process(&req));
    assert_eq!(resp.status, Status::NotFound);
    assert_eq!(resp.body, None);
}

#[test]
fn root_route_is_ok() {
    let req = request("GET / HTTP/1.1\r\n\r\n");
    let router = Router { directory: None };
    let resp = done(router.process(&req));
    assert_eq!(resp.status, Status::Okay);
    assert_eq!(resp.body, None);
}

#[test]
fn user_agent_route_reflects_the_header() {
    let req = request("GET /user-agent HTTP/1.1\r\nUser-Agent: foobar/1.2.3\r\n\r\n");
    let router = Router { directory: None };
    let resp = done(router.process(&req));
    assert_eq!(resp.status, Status::Okay);
    assert_eq!(resp.body, Some(b"foobar/1.2.3".to_vec()));
}

#[test]
fn gzip_negotiation() {
    let req = request("GET /echo/hello HTTP/1.1\r\nAccept-Encoding: gzip\r\n\r\n");
    let router = Router { directory: None };
    let resp = done(router.process(&req));

    let mut buffer = Vec::new();
    resp.write(&mut buffer);
    let text = String::from_utf8_lossy(&buffer);
    assert!(text.contains("Content-Encoding: gzip\r\n"));

    let sep = b"\r\n\r\n";
    let pos = buffer
        .windows(sep.len())
        .position(|w| w == sep)
        .expect("a blank line ends the header block");
    let mut decoder = libflate::gzip::Decoder::new(&buffer[pos + sep.len()..])
        .expect("a gzip stream");
    let mut plain = Vec::new();
    decoder.read_to_end(&mut plain).expect("decodable body");
    assert_eq!(plain, b"hello");
}

#[test]
fn files_get_missing_is_not_found() {
    let req = request("GET /files/missing HTTP/1.1\r\n\r\n");
    let router = Router { directory: Some("served".to_string()) };
    match router.process(&req) {
        Routed::ReadFile { directory, name } => {
            assert_eq!(directory, "served");
            assert_eq!(name, "missing");
        },
        other => panic!("expected a file read, got {:?}", other),
    }
    let resp = files_get_response(&req, ReadOutcome::Missing);
    assert_eq!(resp.status, Status::NotFound);
    assert_eq!(resp.body, None);
}

#[test]
fn files_round_trip() {
    let post = request("POST /files/name HTTP/1.1\r\n\r\ndata");
    let router = Router { directory: Some("served".to_string()) };
    match router.process(&post) {
        Routed::WriteFile { directory, name, content } => {
            assert_eq!(directory, "served");
            assert_eq!(name, "name");
            assert_eq!(content, b"data".to_vec());
        },
        other => panic!("expected a file write, got {:?}", other),
    }
    let created = files_post_response(&post, true);
    assert_eq!(created.status, Status::Created);

    let get = request("GET /files/name HTTP/1.1\r\n\r\n");
    match router.process(&get) {
        Routed::ReadFile { directory, name } => {
            assert_eq!(directory, "served");
            assert_eq!(name, "name");
        },
        other => panic!("expected a file read, got {:?}", other),
    }
    let resp = files_get_response(&get, ReadOutcome::Content(b"data".to_vec()));
    assert_eq!(resp.status, Status::Okay);
    assert_eq!(resp.body, Some(b"data".to_vec()));
}

#[test]
fn files_read_failure_is_a_server_error() {
    let req = request("GET /files/blocked HTTP/1.1\r\n\r\n");
    let resp = files_get_response(&req, ReadOutcome::Failed);
    assert_eq!(resp.status, Status::InternalServerError);
}

#[test]
fn files_write_failure_is_a_server_error() {
    let req = request("POST /files/blocked HTTP/1.1\r\n\r\ndata");
    let resp = files_post_response(&req, false);
    assert_eq!(resp.status, Status::InternalServerError);
}

#[test]
fn files_post_without_a_body_is_a_server_error() {
    let req = request("POST /files/name HTTP/1.1\r\n\r\n");
    let router = Router { directory: Some("served".to_string()) };
    let resp = done(router.process(&req));
    assert_eq!(resp.status, Status::InternalServerError);
}

#[test]
fn unknown_route_is_not_found() {
    let req = request("GET /nothing/here HTTP/1.1\r\n\r\n");
    let router = Router { directory: Some("served".to_string()) };
    let resp = done(router.process(&req));
    assert_eq!(resp.status, Status::NotFound);
    assert_eq!(resp.body, None);
}

#[test]
fn files_without_directory_config_is_a_server_error() {
    let router = Router { directory: None };

    let get = request("GET /files/anything HTTP/1.1\r\n\r\n");
    let resp = done(router.process(&get));
    assert_eq!(resp.status, Status::InternalServerError);

    let post = request("POST /files/anything HTTP/1.1\r\n\r\ndata");
    let resp = done(router.process(&post));
    assert_eq!(resp.status, Status::InternalServerError);
}

#[test]
fn keep_alive_only_on_the_exact_token() {
    let kept = request("GET / HTTP/1.1\r\nConnection: keep-alive\r\n\r\n");
    assert!(keep_alive(&kept));

    let absent = request("GET / HTTP/1.1\r\n\r\n");
    assert!(!keep_alive(&absent));

    let other = request("GET / HTTP/1.1\r\nConnection: close\r\n\r\n");
    assert!(!keep_alive(&other));
}
