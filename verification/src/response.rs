//! Response-side model of the wire protocol: status codes, the ordered
//! response header set, and the serializer with gzip negotiation.

use vstd::prelude::*;
use vstd::string::StringExecFns;
use vstd::string::StringSliceAdditionalSpecFns;
use vstd::utf8::encode_utf8;

use crate::header::Encoding;
use crate::header::Version;
use crate::strutil::spec_dec_chars;
use crate::strutil::usize_to_string;

verus! {

broadcast use vstd::string::group_string_axioms;

/// The body types this server produces.
#[derive(Debug, Clone, Copy, PartialEq, Eq, Structural)]
pub enum ContentType {
    TextPlain,
    OctentStream,
}

pub open spec fn spec_content_type_text(ct: ContentType) -> Seq<char> {
    match ct {
        ContentType::TextPlain => "text/plain"@,
        ContentType::OctentStream => "application/octet-stream"@,
    }
}

impl ContentType {
    /// The media type token as it appears on the wire.
    pub fn text(&self) -> (r: &'static str)
        ensures
            r@ == spec_content_type_text(*self),
    {
        match self {
            ContentType::TextPlain => "text/plain",
            ContentType::OctentStream => "application/octet-stream",
        }
    }
}

/// The closed set of headers a response can carry.
#[derive(Debug, Clone, Copy, PartialEq, Eq, Structural)]
pub enum Headers {
    ContentType(ContentType),
    ContentLength(usize),
    AcceptEncoding(Encoding),
    ContentEncoding(Encoding),
}

pub open spec fn spec_header_name(h: Headers) -> Seq<char> {
    match h {
        Headers::ContentType(_) => "Content-Type"@,
        Headers::ContentLength(_) => "Content-Length"@,
        Headers::AcceptEncoding(_) => "Accept-Encoding"@,
        Headers::ContentEncoding(_) => "Content-Encoding"@,
    }
}

pub open spec fn spec_header_value(h: Headers) -> Seq<char> {
    match h {
        Headers::ContentType(ct) => spec_content_type_text(ct),
        Headers::ContentLength(n) => spec_dec_chars(n as nat),
        Headers::AcceptEncoding(e) => "gzip"@,
        Headers::ContentEncoding(e) => "gzip"@,
    }
}

impl Headers {
    /// The header's wire name and rendered value.
    pub fn text(&self) -> (r: (&'static str, String))
        ensures
            r.0@ == spec_header_name(*self),
            r.1@ == spec_header_value(*self),
    {
        match self {
            Headers::ContentType(ct) => ("Content-Type", String::from_str(ct.text())),
            Headers::ContentLength(size) => ("Content-Length", usize_to_string(*size)),
            Headers::AcceptEncoding(enc) => ("Accept-Encoding", String::from_str(enc.text())),
            Headers::ContentEncoding(enc) => ("Content-Encoding", String::from_str(enc.text())),
        }
    }
}

/// The response statuses this server produces.
#[derive(Debug, Clone, Copy, PartialEq, Eq, Structural)]
pub enum Status {
    Okay,
    Created,
    Forbidden,
    NotFound,
    InternalServerError,
}

pub open spec fn spec_status_code(st: Status) -> Seq<char> {
    match st {
        Status::Okay => "200"@,
        Status::Created => "201"@,
        Status::Forbidden => "403"@,
        Status::NotFound => "404"@,
        Status::InternalServerError => "500"@,
    }
}

pub open spec fn spec_status_reason(st: Status) -> Seq<char> {
    match st {
        Status::Okay => "OK"@,
        Status::Created => "Created"@,
        Status::Forbidden => "Forbidden"@,
        Status::NotFound => "Not Found"@,
        Status::InternalServerError => "Internal Server Error"@,
    }
}

impl Status {
    /// The three-digit status code.
    pub fn code(&self) -> (r: &str)
        ensures
            r@ == spec_status_code(*self),
    {
        match self {
            Status::Okay => "200",
            Status::Created => "201",
            Status::Forbidden => "403",
            Status::NotFound => "404",
            Status::InternalServerError => "500",
        }
    }

    /// The fixed reason phrase.
    pub fn reason(&self) -> (r: &str)
        ensures
            r@ == spec_status_reason(*self),
    {
        match self {
            Status::Okay => "OK",
            Status::Created => "Created",
            Status::Forbidden => "Forbidden",
            Status::NotFound => "Not Found",
            Status::InternalServerError => "Internal Server Error",
        }
    }
}

/// The total order on response headers that fixes serialization order.
pub open spec fn spec_header_key(h: Headers) -> (int, int) {
    match h {
        Headers::ContentType(ct) => (
            0int,
            match ct {
                ContentType::TextPlain => 0int,
                ContentType::OctentStream => 1int,
            },
        ),
        Headers::ContentLength(n) => (1int, n as int),
        Headers::AcceptEncoding(_) => (2int, 0int),
        Headers::ContentEncoding(_) => (3int, 0int),
    }
}

pub open spec fn spec_header_lt(a: Headers, b: Headers) -> bool {
    let ka = spec_header_key(a);
    let kb = spec_header_key(b);
    ka.0 < kb.0 || (ka.0 == kb.0 && ka.1 < kb.1)
}

/// The ordered set of headers on a response. Iteration follows the
/// total order of [`spec_header_key`], so serialization is
/// deterministic.
#[derive(Debug, Clone, PartialEq, Eq)]
pub struct HeaderSet {
    entries: Vec<Headers>,
}

impl View for HeaderSet {
    type V = Seq<Headers>;

    closed spec fn view(&self) -> Seq<Headers> {
        self.entries@
    }
}

impl HeaderSet {
    /// Strictly sorted by the header order: a set, not a multiset.
    pub open spec fn wf(&self) -> bool {
        forall|i: int, j: int|
            0 <= i < j < self@.len() ==> spec_header_lt(self@[i], self@[j])
    }

    /// An empty set.
    pub fn new() -> (r: HeaderSet)
        ensures
            r@ == Seq::<Headers>::empty(),
            r.wf(),
    {
        HeaderSet { entries: Vec::new() }
    }

    /// How many headers the set holds.
    pub fn len(&self) -> (r: usize)
        ensures
            r == self@.len(),
    {
        self.entries.len()
    }

    /// The header at position `i` in serialization order.
    pub fn index(&self, i: usize) -> (r: Headers)
        requires
            i < self@.len(),
        ensures
            r == self@[i as int],
    {
        self.entries[i]
    }

    /// Add `h` unless a header with the same key is already present;
    /// the set stays sorted.
    pub fn insert(&mut self, h: Headers)
        requires
            old(self).wf(),
        ensures
            final(self).wf(),
            (exists|i: int|
                0 <= i < old(self)@.len() && spec_header_key(old(self)@[i]) == spec_header_key(
                    h,
                )) ==> final(self)@ == old(self)@,
            !(exists|i: int|
                0 <= i < old(self)@.len() && spec_header_key(old(self)@[i]) == spec_header_key(
                    h,
                )) ==> exists|pos: int|
                0 <= pos <= old(self)@.len() && final(self)@ == old(self)@.insert(pos, h),
    {
        let hk = header_rank(&h);
        let mut pos: usize = 0;
        let mut stop = false;
        let n = self.entries.len();
        while !stop && pos < n
            invariant
                pos <= n,
                n == self@.len(),
                old(self) == self,
                self.wf(),
                spec_header_key(h) == (hk.0 as int, hk.1 as int),
                forall|i: int| 0 <= i < pos ==> spec_header_lt(self@[i], h),
                stop ==> pos < n && spec_header_lt(h, self@[pos as int]),
            decreases n - pos, (if stop {
                0int
            } else {
                1int
            }),
        {
            let ek = header_rank(&self.entries[pos]);
            if ek.0 > hk.0 || (ek.0 == hk.0 && ek.1 > hk.1) {
                stop = true;
            } else if ek.0 == hk.0 && ek.1 == hk.1 {
                proof {
                    assert(spec_header_key(self@[pos as int]) == spec_header_key(h));
                }
                return ;
            } else {
                pos = pos + 1;
            }
        }
        proof {
            assert(forall|i: int| 0 <= i < pos ==> spec_header_lt(self@[i], h));
            assert(pos < self@.len() ==> spec_header_lt(h, self@[pos as int]));
            assert forall|i: int|
                0 <= i < self@.len() && spec_header_key(self@[i]) == spec_header_key(
                    h,
                ) implies false by {
                if i < pos {
                    assert(spec_header_lt(self@[i], h));
                } else {
                    assert(spec_header_lt(h, self@[i]) || (pos <= i && spec_header_lt(
                        self@[pos as int],
                        self@[i],
                    )) || i == pos);
                }
            }
        }
        let ghost olds = self@;
        self.entries.insert(pos, h);
        proof {
            assert(final(self)@ == olds.insert(pos as int, h));
            assert forall|i: int, j: int| 0 <= i < j < self@.len() implies spec_header_lt(
                self@[i],
                self@[j],
            ) by {
                let s = self@;
                if j < pos {
                } else if i == pos as int {
                    assert(s[j] == olds[j - 1]);
                    if j - 1 > pos {
                        assert(spec_header_lt(olds[pos as int], olds[j - 1]));
                    }
                } else if j == pos as int {
                    assert(s[i] == olds[i]);
                } else if i < pos {
                    if j > pos {
                        assert(s[j] == olds[j - 1]);
                    }
                } else {
                    assert(s[i] == olds[i - 1] && s[j] == olds[j - 1]);
                }
            }
        }
    }
}

impl Default for HeaderSet {
    /// An empty set.
    fn default() -> (r: HeaderSet)
        ensures
            r@ == Seq::<Headers>::empty(),
            r.wf(),
    {
        HeaderSet { entries: Vec::new() }
    }
}

/// The comparison key of a header, as a machine value.
fn header_rank(h: &Headers) -> (r: (u8, usize))
    ensures
        spec_header_key(*h) == (r.0 as int, r.1 as int),
{
    match h {
        Headers::ContentType(ct) => (
            0u8,
            match ct {
                ContentType::TextPlain => 0usize,
                ContentType::OctentStream => 1usize,
            },
        ),
        Headers::ContentLength(n) => (1u8, *n),
        Headers::AcceptEncoding(_) => (2u8, 0usize),
        Headers::ContentEncoding(_) => (3u8, 0usize),
    }
}


/// Mathematical shape of a [`Response`].
pub ghost struct ResponseView {
    pub version: Version,
    pub status: Status,
    pub headers: Seq<Headers>,
    pub accept_encoding: Option<Encoding>,
    pub body: Option<Seq<u8>>,
}

/// One response, as a handler builds it: immutable once built, consumed
/// by the serializer.
#[derive(Debug, Clone, PartialEq, Eq)]
pub struct Response {
    pub version: Version,
    pub status: Status,
    pub headers: HeaderSet,
    pub accept_encoding: Option<Encoding>,
    pub body: Option<Vec<u8>>,
}

impl View for Response {
    type V = ResponseView;

    open spec fn view(&self) -> ResponseView {
        ResponseView {
            version: self.version,
            status: self.status,
            headers: self.headers@,
            accept_encoding: self.accept_encoding,
            body: match self.body {
                Some(b) => Some(b@),
                None => None,
            },
        }
    }
}

/// What the gzip encoder returns for the given bytes. The encoder is
/// run with a fixed header, so the result is a function of the input
/// alone; nothing further is assumed of it.
pub uninterp spec fn spec_gzip(b: Seq<u8>) -> Seq<u8>;

/// Relies on libflate's gzip `Encoder` over a `Vec` sink: writing a
/// byte slice and finishing cannot fail, and with a fixed header (a
/// zero modification time, the defaults otherwise) the compressed
/// output depends on the input bytes alone.
#[verifier::external_body]
fn gzip_compress(body: &Vec<u8>) -> (r: Vec<u8>)
    ensures
        r@ == spec_gzip(body@),
{
    let header = libflate::gzip::HeaderBuilder::new().modification_time(0).finish();
    let options = libflate::gzip::EncodeOptions::new().header(header);
    let mut e = libflate::gzip::Encoder::with_options(Vec::new(), options)
        .expect("gzip encoder over a Vec sink cannot fail");
    std::io::Write::write_all(&mut e, body.as_slice())
        .expect("gzip write to a Vec sink cannot fail");
    e.finish().into_result().expect("gzip finish over a Vec sink cannot fail")
}

pub open spec fn spec_crlf() -> Seq<u8> {
    seq![('\r' as u8), ('\n' as u8)]
}

/// `VERSION SP CODE SP REASON CRLF`.
pub open spec fn spec_status_line(v: Version, st: Status) -> Seq<u8> {
    encode_utf8(crate::header::spec_version_text(v)) + seq![(' ' as u8)] + encode_utf8(
        spec_status_code(st),
    ) + seq![
        (' ' as u8),
    ] + encode_utf8(spec_status_reason(st)) + spec_crlf()
}

/// `NAME: VALUE CRLF`.
pub open spec fn spec_header_line_bytes(h: Headers) -> Seq<u8> {
    encode_utf8(spec_header_name(h)) + encode_utf8(": "@) + encode_utf8(spec_header_value(h))
        + spec_crlf()
}

/// The header block in set order, every header but `Content-Length`,
/// which the serializer computes from the bytes actually written.
pub open spec fn spec_headers_bytes(hs: Seq<Headers>) -> Seq<u8>
    decreases hs.len(),
{
    if hs.len() == 0 {
        Seq::empty()
    } else {
        (match hs[0] {
            Headers::ContentLength(_) => Seq::<u8>::empty(),
            _ => spec_header_line_bytes(hs[0]),
        }) + spec_headers_bytes(hs.drop_first())
    }
}

/// `Content-Length: N CRLF CRLF BODY`, for the bytes actually sent.
pub open spec fn spec_framed_body(b: Seq<u8>) -> Seq<u8> {
    spec_header_line_bytes(Headers::ContentLength(b.len() as usize)) + spec_crlf() + b
}

/// The tail of a response: just a blank line without a body; with one,
/// the framed raw or compressed bytes, after a `Content-Encoding`
/// header when gzip was negotiated.
pub open spec fn spec_body_bytes(ae: Option<Encoding>, body: Option<Seq<u8>>) -> Seq<u8> {
    match body {
        None => spec_crlf(),
        Some(b) => match ae {
            None => spec_framed_body(b),
            Some(Encoding::Gzip) => spec_header_line_bytes(
                Headers::ContentEncoding(Encoding::Gzip),
            ) + spec_framed_body(spec_gzip(b)),
        },
    }
}

/// Every byte the serializer appends for a response.
pub open spec fn spec_serialize(r: ResponseView) -> Seq<u8> {
    spec_status_line(r.version, r.status) + spec_headers_bytes(r.headers) + spec_body_bytes(
        r.accept_encoding,
        r.body,
    )
}

proof fn lemma_headers_bytes_push(hs: Seq<Headers>, h: Headers)
    ensures
        spec_headers_bytes(hs.push(h)) == spec_headers_bytes(hs) + (match h {
            Headers::ContentLength(_) => Seq::<u8>::empty(),
            _ => spec_header_line_bytes(h),
        }),
    decreases hs.len(),
{
    let line = (match h {
        Headers::ContentLength(_) => Seq::<u8>::empty(),
        _ => spec_header_line_bytes(h),
    });
    let s1 = hs.push(h);
    if hs.len() == 0 {
        assert(spec_headers_bytes(hs) == Seq::<u8>::empty());
        assert(s1.len() == 1 && s1[0] == h);
        assert(s1.drop_first() =~= Seq::<Headers>::empty());
        assert(spec_headers_bytes(s1.drop_first()) == Seq::<u8>::empty());
        assert(spec_headers_bytes(s1) == line + spec_headers_bytes(s1.drop_first()));
        assert(spec_headers_bytes(s1) =~= spec_headers_bytes(hs) + line);
    } else {
        assert(s1.drop_first() =~= hs.drop_first().push(h));
        lemma_headers_bytes_push(hs.drop_first(), h);
        assert(s1[0] == hs[0]);
        let head = (match hs[0] {
            Headers::ContentLength(_) => Seq::<u8>::empty(),
            _ => spec_header_line_bytes(hs[0]),
        });
        assert(spec_headers_bytes(s1) == head + spec_headers_bytes(s1.drop_first()));
        assert(spec_headers_bytes(s1.drop_first()) == spec_headers_bytes(hs.drop_first()) + line);
        assert(spec_headers_bytes(hs) == head + spec_headers_bytes(hs.drop_first()));
        assert(spec_headers_bytes(s1) =~= spec_headers_bytes(hs) + line);
    }
}

impl Response {
    /// Append the whole serialized response to `buf`, which is never
    /// cleared or truncated here: the caller owns its lifecycle.
    pub fn write(&self, buf: &mut Vec<u8>)
        ensures
            final(buf)@ == old(buf)@ + spec_serialize(self@),
    {
        self.handle_response_line(buf);
        self.handle_headers(buf);
        self.handle_body(buf);
        proof {
            assert(final(buf)@ =~= old(buf)@ + spec_serialize(self@));
        }
    }

    fn insert(key: &str, value: &str, buf: &mut Vec<u8>)
        ensures
            final(buf)@ == old(buf)@ + encode_utf8(key@) + encode_utf8(": "@) + encode_utf8(
                value@,
            ) + spec_crlf(),
    {
        buf.extend_from_slice(key.as_bytes());
        buf.extend_from_slice(": ".as_bytes());
        buf.extend_from_slice(value.as_bytes());
        buf.push('\r' as u8);
        buf.push('\n' as u8);
        proof {
            assert(final(buf)@ =~= old(buf)@ + encode_utf8(key@) + encode_utf8(": "@)
                + encode_utf8(value@) + spec_crlf());
        }
    }

    fn handle_response_line(&self, buf: &mut Vec<u8>)
        ensures
            final(buf)@ == old(buf)@ + spec_status_line(self.version, self.status),
    {
        buf.extend_from_slice(self.version.text().as_bytes());
        buf.push(' ' as u8);
        buf.extend_from_slice(self.status.code().as_bytes());
        buf.push(' ' as u8);
        buf.extend_from_slice(self.status.reason().as_bytes());
        buf.push('\r' as u8);
        buf.push('\n' as u8);
        proof {
            assert(final(buf)@ =~= old(buf)@ + spec_status_line(self.version, self.status));
        }
    }

    fn handle_headers(&self, buf: &mut Vec<u8>)
        ensures
            final(buf)@ == old(buf)@ + spec_headers_bytes(self@.headers),
    {
        let n = self.headers.len();
        let mut i: usize = 0;
        while i < n
            invariant
                i <= n,
                n == self@.headers.len(),
                self@.headers == self.headers@,
                buf@ == old(buf)@ + spec_headers_bytes(self@.headers.take(i as int)),
            decreases n - i,
        {
            let h = self.headers.index(i);
            let skip = match h {
                Headers::ContentLength(_) => true,
                _ => false,
            };
            if !skip {
                let (key, value) = h.text();
                Self::insert(key, value.as_str(), buf);
            }
            proof {
                lemma_headers_bytes_push(self@.headers.take(i as int), h);
                assert(self@.headers.take(i as int).push(h) =~= self@.headers.take(i + 1));
                assert(buf@ =~= old(buf)@ + spec_headers_bytes(self@.headers.take(i + 1)));
            }
            i = i + 1;
        }
        proof {
            assert(self@.headers.take(n as int) =~= self@.headers);
        }
    }

    fn handle_writing(buf: &mut Vec<u8>, body: &Vec<u8>)
        ensures
            final(buf)@ == old(buf)@ + spec_framed_body(body@),
    {
        let (key, value) = Headers::ContentLength(body.len()).text();
        Self::insert(key, value.as_str(), buf);
        buf.push('\r' as u8);
        buf.push('\n' as u8);
        buf.extend_from_slice(body.as_slice());
        proof {
            assert(final(buf)@ =~= old(buf)@ + spec_framed_body(body@));
        }
    }

    fn handle_body(&self, buf: &mut Vec<u8>)
        ensures
            final(buf)@ == old(buf)@ + spec_body_bytes(self.accept_encoding, self@.body),
    {
        match &self.body {
            None => {
                buf.push('\r' as u8);
                buf.push('\n' as u8);
                proof {
                    assert(final(buf)@ =~= old(buf)@ + spec_crlf());
                }
            },
            Some(body) => match self.accept_encoding {
                None => {
                    Self::handle_writing(buf, body);
                },
                Some(Encoding::Gzip) => {
                    let (key, value) = Headers::ContentEncoding(Encoding::Gzip).text();
                    Self::insert(key, value.as_str(), buf);
                    let cbody = gzip_compress(body);
                    Self::handle_writing(buf, &cbody);
                    proof {
                        assert(final(buf)@ =~= old(buf)@ + spec_body_bytes(
                            self.accept_encoding,
                            self@.body,
                        ));
                    }
                },
            },
        }
    }
}

/// Serialization is deterministic: two responses with the same value
/// serialize to the same bytes, whatever each serializer call appends
/// them to.
pub proof fn lemma_serialize_deterministic(
    r1: ResponseView,
    r2: ResponseView,
    pre1: Seq<u8>,
    pre2: Seq<u8>,
)
    requires
        r1 == r2,
    ensures
        (pre1 + spec_serialize(r1)).skip(pre1.len() as int) == (pre2 + spec_serialize(r2)).skip(
            pre2.len() as int,
        ),
{
    assert((pre1 + spec_serialize(r1)).skip(pre1.len() as int) =~= spec_serialize(r1));
    assert((pre2 + spec_serialize(r2)).skip(pre2.len() as int) =~= spec_serialize(r2));
}

} // verus!
