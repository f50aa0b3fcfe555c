//! Pure routing: from a parsed request and the read-only server
//! configuration to a response, or to the file operation whose outcome
//! decides the response. The caller performs the operation and hands
//! its outcome back to [`files_get_response`] or [`files_post_response`].

use vstd::prelude::*;
use vstd::string::StrSliceExecFns;
use vstd::utf8::encode_utf8;

use crate::header::Encoding;
use crate::header::Method;
use crate::header::Request;
use crate::header::RequestView;
use crate::header::Version;
use crate::response::ContentType;
use crate::response::HeaderSet;
use crate::response::Headers;
use crate::response::Response;
use crate::response::ResponseView;
use crate::response::Status;
use crate::strutil::str_eq;

verus! {

/// The router: dispatch on the first path segment, with the optional
/// directory that the file routes serve.
pub struct Router {
    pub directory: Option<String>,
}

/// What routing decides: a finished response, or the one file operation
/// whose outcome still has to be turned into a response.
#[derive(Debug, Clone, PartialEq, Eq)]
pub enum Routed {
    Done(Response),
    ReadFile { directory: String, name: String },
    WriteFile { directory: String, name: String, content: Vec<u8> },
}

/// How reading the requested file went: the file does not exist, the
/// check or the read failed, or the file's bytes.
#[derive(Debug, Clone, PartialEq, Eq)]
pub enum ReadOutcome {
    Missing,
    Failed,
    Content(Vec<u8>),
}

/// A response with no headers and no body, carrying the request's
/// negotiated encoding.
pub open spec fn spec_plain_response(st: Status, req: RequestView) -> ResponseView {
    ResponseView {
        version: Version::Http11,
        status: st,
        headers: Seq::empty(),
        accept_encoding: req.header.accept_encoding,
        body: None,
    }
}

/// A response with one `Content-Type` header and a body, carrying the
/// request's negotiated encoding.
pub open spec fn spec_text_response(
    st: Status,
    ct: ContentType,
    body: Seq<u8>,
    req: RequestView,
) -> ResponseView {
    ResponseView {
        version: Version::Http11,
        status: st,
        headers: seq![Headers::ContentType(ct)],
        accept_encoding: req.header.accept_encoding,
        body: Some(body),
    }
}

/// The files routes: no second segment is 404; no configured directory
/// is 500; a GET becomes a read of the named file, a POST with a body
/// becomes a write of the body to it, and a POST without one is 500.
pub open spec fn spec_files_ok(dir: Option<Seq<char>>, req: RequestView, r: Routed) -> bool {
    let secs = req.header.url.sections;
    if secs.len() == 1 {
        r matches Routed::Done(resp) && resp@ == spec_plain_response(Status::NotFound, req)
    } else if dir is None {
        r matches Routed::Done(resp) && resp@ == spec_plain_response(
            Status::InternalServerError,
            req,
        )
    } else if req.header.method == Method::Get {
        r matches Routed::ReadFile { directory, name } && directory@ == dir->0 && name@ == secs[1]
    } else {
        match req.body {
            None => r matches Routed::Done(resp) && resp@ == spec_plain_response(
                Status::InternalServerError,
                req,
            ),
            Some(b) => r matches Routed::WriteFile { directory, name, content } && directory@
                == dir->0 && name@ == secs[1] && content@ == b,
        }
    }
}

/// Exhaustive dispatch on the first path segment, as the router
/// performs it.
pub open spec fn spec_routed_ok(dir: Option<Seq<char>>, req: RequestView, r: Routed) -> bool {
    let secs = req.header.url.sections;
    if secs[0] == "/"@ {
        r matches Routed::Done(resp) && resp@ == spec_plain_response(Status::Okay, req)
    } else if secs[0] == "echo"@ {
        if secs.len() == 1 {
            r matches Routed::Done(resp) && resp@ == spec_plain_response(Status::NotFound, req)
        } else {
            r matches Routed::Done(resp) && resp@ == spec_text_response(
                Status::Okay,
                ContentType::TextPlain,
                encode_utf8(secs[1]),
                req,
            )
        }
    } else if secs[0] == "user-agent"@ {
        r matches Routed::Done(resp) && resp@ == spec_text_response(
            Status::Okay,
            ContentType::TextPlain,
            encode_utf8(req.header.headers["User-Agent"@]),
            req,
        )
    } else if secs[0] == "files"@ {
        spec_files_ok(dir, req, r)
    } else {
        r matches Routed::Done(resp) && resp@ == spec_plain_response(Status::NotFound, req)
    }
}

impl Router {
    /// The configured directory, as text.
    pub open spec fn spec_dir(&self) -> Option<Seq<char>> {
        match self.directory {
            Some(d) => Some(d@),
            None => None,
        }
    }

    /// Route one request. The `user-agent` route assumes its header is
    /// present; a request without it does not reach this router alive.
    pub fn process(&self, request: &Request) -> (r: Routed)
        requires
            request@.header.url.sections.len() > 0,
            request@.header.url.sections[0] == "user-agent"@
                ==> request@.header.headers.contains_key("User-Agent"@),
        ensures
            spec_routed_ok(self.spec_dir(), request@, r),
    {
        proof {
            assert(request@.header.url.sections[0] == request.header.url.sections@[0]@);
        }
        if str_eq(request.header.url.sections[0].as_str(), "/") {
            Routed::Done(self.root(request))
        } else if str_eq(request.header.url.sections[0].as_str(), "echo") {
            Routed::Done(self.echo(request))
        } else if str_eq(request.header.url.sections[0].as_str(), "user-agent") {
            Routed::Done(self.user_agent(request))
        } else if str_eq(request.header.url.sections[0].as_str(), "files") {
            self.files(request)
        } else {
            Routed::Done(Self::not_found(request))
        }
    }

    /// The root route: 200, no body.
    pub fn root(&self, request: &Request) -> (r: Response)
        ensures
            r@ == spec_plain_response(Status::Okay, request@),
    {
        Self::ok(request)
    }

    /// The echo route: the second path segment as a plain-text body, or
    /// 404 without one.
    pub fn echo(&self, request: &Request) -> (r: Response)
        requires
            request@.header.url.sections.len() > 0,
        ensures
            request@.header.url.sections.len() == 1 ==> r@ == spec_plain_response(
                Status::NotFound,
                request@,
            ),
            request@.header.url.sections.len() > 1 ==> r@ == spec_text_response(
                Status::Okay,
                ContentType::TextPlain,
                encode_utf8(request@.header.url.sections[1]),
                request@,
            ),
    {
        if request.header.url.sections.len() == 1 {
            return Self::not_found(request);
        }
        let mut resp = Self::ok(request);
        let ct = Headers::ContentType(ContentType::TextPlain);
        resp.headers.insert(ct);
        resp.body = Some(request.header.url.sections[1].as_str().as_bytes_vec());
        proof {
            assert(request@.header.url.sections[1] == request.header.url.sections@[1]@);
            assert(resp@.headers =~= seq![ct]);
        }
        resp
    }

    /// The user-agent route: reflect the `User-Agent` header as a
    /// plain-text body. The header is a precondition of this route.
    pub fn user_agent(&self, request: &Request) -> (r: Response)
        requires
            request@.header.headers.contains_key("User-Agent"@),
        ensures
            r@ == spec_text_response(
                Status::Okay,
                ContentType::TextPlain,
                encode_utf8(request@.header.headers["User-Agent"@]),
                request@,
            ),
    {
        let mut resp = Self::ok(request);
        let ct = Headers::ContentType(ContentType::TextPlain);
        resp.headers.insert(ct);
        let ua = match request.header.headers.get("User-Agent") {
            Some(v) => v.as_str().as_bytes_vec(),
            None => {
                // excluded by this route's precondition
                proof {
                    assert(false);
                }
                Vec::new()
            },
        };
        resp.body = Some(ua);
        proof {
            assert(resp@.headers =~= seq![ct]);
        }
        resp
    }

    /// The files routes: decide the response, or the file operation
    /// whose outcome decides it.
    fn files(&self, request: &Request) -> (r: Routed)
        requires
            request@.header.url.sections.len() > 0,
        ensures
            spec_files_ok(self.spec_dir(), request@, r),
    {
        if request.header.url.sections.len() == 1 {
            return Routed::Done(Self::not_found(request));
        }
        let directory = match &self.directory {
            None => {
                return Routed::Done(Self::internal_server_error(request));
            },
            Some(d) => d.clone(),
        };
        let name = request.header.url.sections[1].clone();
        proof {
            assert(request@.header.url.sections[1] == request.header.url.sections@[1]@);
        }
        match request.header.method {
            Method::Get => Routed::ReadFile { directory, name },
            Method::Post => match &request.body {
                None => Routed::Done(Self::internal_server_error(request)),
                Some(content) => {
                    let copied = vstd::slice::slice_to_vec(content.as_slice());
                    Routed::WriteFile { directory, name, content: copied }
                },
            },
        }
    }

    /// A bare 201 response.
    pub fn created(request: &Request) -> (r: Response)
        ensures
            r@ == spec_plain_response(Status::Created, request@),
    {
        Response {
            version: Version::Http11,
            status: Status::Created,
            headers: HeaderSet::new(),
            accept_encoding: request.header.accept_encoding,
            body: None,
        }
    }

    /// A bare 200 response.
    pub fn ok(request: &Request) -> (r: Response)
        ensures
            r@ == spec_plain_response(Status::Okay, request@),
    {
        Response {
            version: Version::Http11,
            status: Status::Okay,
            headers: HeaderSet::new(),
            accept_encoding: request.header.accept_encoding,
            body: None,
        }
    }

    /// A bare 404 response.
    pub fn not_found(request: &Request) -> (r: Response)
        ensures
            r@ == spec_plain_response(Status::NotFound, request@),
    {
        Response {
            version: Version::Http11,
            status: Status::NotFound,
            headers: HeaderSet::new(),
            accept_encoding: request.header.accept_encoding,
            body: None,
        }
    }

    /// A bare 500 response.
    pub fn internal_server_error(request: &Request) -> (r: Response)
        ensures
            r@ == spec_plain_response(Status::InternalServerError, request@),
    {
        Response {
            version: Version::Http11,
            status: Status::InternalServerError,
            headers: HeaderSet::new(),
            accept_encoding: request.header.accept_encoding,
            body: None,
        }
    }
}

/// Turn the outcome of reading the requested file into the response of
/// the files GET route: 404 when the file does not exist, 500 when the
/// check or the read failed, and 200 with the bytes as an octet-stream
/// body on success.
pub fn files_get_response(request: &Request, outcome: ReadOutcome) -> (r: Response)
    ensures
        match outcome {
            ReadOutcome::Missing => r@ == spec_plain_response(Status::NotFound, request@),
            ReadOutcome::Failed => r@ == spec_plain_response(
                Status::InternalServerError,
                request@,
            ),
            ReadOutcome::Content(c) => r@ == spec_text_response(
                Status::Okay,
                ContentType::OctentStream,
                c@,
                request@,
            ),
        },
{
    match outcome {
        ReadOutcome::Missing => Router::not_found(request),
        ReadOutcome::Failed => Router::internal_server_error(request),
        ReadOutcome::Content(c) => {
            let mut resp = Router::ok(request);
            let ct = Headers::ContentType(ContentType::OctentStream);
            resp.headers.insert(ct);
            resp.body = Some(c);
            proof {
                assert(resp@.headers =~= seq![ct]);
            }
            resp
        },
    }
}

/// Turn the outcome of writing the posted file into the response of the
/// files POST route: 201 when the write went through, 500 otherwise.
pub fn files_post_response(request: &Request, written: bool) -> (r: Response)
    ensures
        written ==> r@ == spec_plain_response(Status::Created, request@),
        !written ==> r@ == spec_plain_response(Status::InternalServerError, request@),
{
    if written {
        Router::created(request)
    } else {
        Router::internal_server_error(request)
    }
}

/// True exactly when the request asks to keep the connection open: a
/// `Connection` header equal to `keep-alive`. Any other value, or no
/// header, closes the connection.
pub fn keep_alive(request: &Request) -> (r: bool)
    ensures
        r == (request@.header.headers.contains_key("Connection"@)
            && request@.header.headers["Connection"@] == "keep-alive"@),
{
    match request.header.headers.get("Connection") {
        Some(v) => str_eq(v.as_str(), "keep-alive"),
        None => false,
    }
}

/// Any unmatched first segment yields 404 with no body.
pub proof fn lemma_unknown_route(dir: Option<Seq<char>>, req: RequestView, r: Routed)
    requires
        req.header.url.sections.len() > 0,
        req.header.url.sections[0] != "/"@,
        req.header.url.sections[0] != "echo"@,
        req.header.url.sections[0] != "user-agent"@,
        req.header.url.sections[0] != "files"@,
        spec_routed_ok(dir, req, r),
    ensures
        r matches Routed::Done(resp) && resp@.status == Status::NotFound && resp@.body is None,
{
}

/// A files route with no configured directory yields 500, for GET and
/// POST alike.
pub proof fn lemma_files_without_directory(req: RequestView, r: Routed)
    requires
        req.header.url.sections.len() >= 2,
        req.header.url.sections[0] == "files"@,
        req.header.url.sections[0] != "/"@,
        req.header.url.sections[0] != "echo"@,
        req.header.url.sections[0] != "user-agent"@,
        spec_routed_ok(None, req, r),
    ensures
        r matches Routed::Done(resp) && resp@.status == Status::InternalServerError,
{
}

} // verus!
