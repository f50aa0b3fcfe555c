//! Request-side model of the wire protocol: methods, versions, URLs,
//! header collections, and the request parser.

use vstd::prelude::*;
use vstd::string::StringExecFns;
use vstd::string::StringSliceAdditionalSpecFns;
use vstd::utf8::decode_utf8;
use vstd::utf8::valid_utf8;

use crate::strutil::find_byte;
use crate::strutil::lemma_spec_find;
use crate::strutil::spec_find;
use crate::strutil::str_eq;
use crate::strutil::string_from_utf8;

verus! {

broadcast use vstd::string::group_string_axioms;

/// The request methods this server understands. Any other token on the
/// request line is a parse failure, not a defaulted value.
#[derive(Debug, Clone, Copy, PartialEq, Eq, Structural)]
pub enum Method {
    Get,
    Post,
}

/// The protocol versions this server understands.
#[derive(Debug, Clone, Copy, PartialEq, Eq, Structural)]
pub enum Version {
    Http11,
}

pub open spec fn spec_version_text(v: Version) -> Seq<char> {
    match v {
        Version::Http11 => "HTTP/1.1"@,
    }
}

impl Version {
    /// The exact textual form of the version, as it appears on the wire.
    pub fn text(&self) -> (r: &str)
        ensures
            r@ == spec_version_text(*self),
    {
        match self {
            Version::Http11 => "HTTP/1.1",
        }
    }
}

/// Content encodings available for negotiation.
#[derive(Debug, Clone, Copy, PartialEq, Eq, Structural)]
pub enum Encoding {
    Gzip,
}

impl Encoding {
    /// The token for this encoding in `Accept-Encoding` and
    /// `Content-Encoding` headers.
    pub fn text(&self) -> (r: &str)
        ensures
            r@ == "gzip"@,
    {
        match self {
            Encoding::Gzip => "gzip",
        }
    }
}

/// Mathematical shape of a [`Url`]: the path segments and the raw query.
pub ghost struct UrlView {
    pub sections: Seq<Seq<char>>,
    pub query: Option<Seq<char>>,
}

/// A request target, split into non-empty path segments (the root path is
/// the single segment `"/"`) and an optional raw query string.
#[derive(Debug, Clone, PartialEq, Eq)]
pub struct Url {
    pub sections: Vec<String>,
    pub query: Option<String>,
}

impl View for Url {
    type V = UrlView;

    open spec fn view(&self) -> UrlView {
        UrlView { sections: self.sections.deep_view(), query: self.query.deep_view() }
    }
}

/// A collection of request headers: a map from name to value, where a
/// later binding of the same name overwrites an earlier one.
#[derive(Debug, Clone, PartialEq, Eq)]
pub struct HeaderMap {
    entries: Vec<(String, String)>,
}

/// The map bound by a sequence of (name, value) entries, later entries
/// overwriting earlier ones.
pub open spec fn spec_entries_map(s: Seq<(String, String)>) -> Map<Seq<char>, Seq<char>>
    decreases s.len(),
{
    if s.len() == 0 {
        Map::empty()
    } else {
        spec_entries_map(s.drop_last()).insert(s.last().0@, s.last().1@)
    }
}

impl View for HeaderMap {
    type V = Map<Seq<char>, Seq<char>>;

    closed spec fn view(&self) -> Map<Seq<char>, Seq<char>> {
        spec_entries_map(self.entries@)
    }
}

proof fn lemma_entries_map_at(s: Seq<(String, String)>, k: Seq<char>, j: int)
    requires
        0 <= j < s.len(),
        s[j].0@ == k,
        forall|l: int| j < l < s.len() ==> s[l].0@ != k,
    ensures
        spec_entries_map(s).contains_key(k),
        spec_entries_map(s)[k] == s[j].1@,
    decreases s.len(),
{
    if j == s.len() - 1 {
    } else {
        assert(s.drop_last()[j].0@ == k);
        assert(forall|l: int| j < l < s.len() - 1 ==> s.drop_last()[l].0@ != k);
        lemma_entries_map_at(s.drop_last(), k, j);
        assert(s.last().0@ != k);
    }
}

proof fn lemma_entries_map_absent(s: Seq<(String, String)>, k: Seq<char>)
    requires
        forall|i: int| 0 <= i < s.len() ==> s[i].0@ != k,
    ensures
        !spec_entries_map(s).contains_key(k),
    decreases s.len(),
{
    if s.len() > 0 {
        assert(forall|i: int| 0 <= i < s.len() - 1 ==> s.drop_last()[i].0@ != k);
        lemma_entries_map_absent(s.drop_last(), k);
        assert(s.last().0@ != k);
    }
}

impl HeaderMap {
    /// An empty collection.
    pub fn new() -> (r: HeaderMap)
        ensures
            r@ == Map::<Seq<char>, Seq<char>>::empty(),
    {
        HeaderMap { entries: Vec::new() }
    }

    /// Bind `k` to `v`, overwriting any earlier binding of `k`.
    pub fn insert(&mut self, k: String, v: String)
        ensures
            final(self)@ == old(self)@.insert(k@, v@),
    {
        let ghost oldseq = self.entries@;
        self.entries.push((k, v));
        proof {
            assert(self.entries@.drop_last() =~= oldseq);
        }
    }

    /// Look `k` up; the later of two bindings of the same name wins.
    pub fn get(&self, k: &str) -> (r: Option<&String>)
        ensures
            match r {
                Some(v) => self@.contains_key(k@) && v@ == self@[k@],
                None => !self@.contains_key(k@),
            },
    {
        let mut i = self.entries.len();
        while i > 0
            invariant
                i <= self.entries@.len(),
                forall|l: int| i <= l < self.entries@.len() ==> self.entries@[l].0@ != k@,
            decreases i,
        {
            i = i - 1;
            if str_eq(self.entries[i].0.as_str(), k) {
                proof {
                    lemma_entries_map_at(self.entries@, k@, i as int);
                }
                return Some(&self.entries[i].1);
            }
        }
        proof {
            lemma_entries_map_absent(self.entries@, k@);
        }
        None
    }

    /// True when no header has been bound at all.
    pub fn is_empty(&self) -> (r: bool)
        ensures
            r <==> self@ =~= Map::<Seq<char>, Seq<char>>::empty(),
    {
        proof {
            if self.entries@.len() > 0 {
                assert(spec_entries_map(self.entries@).contains_key(self.entries@.last().0@));
            }
        }
        self.entries.len() == 0
    }
}

/// Mathematical shape of a request [`Header`].
pub ghost struct HeaderView {
    pub method: Method,
    pub url: UrlView,
    pub version: Version,
    pub headers: Map<Seq<char>, Seq<char>>,
    pub accept_encoding: Option<Encoding>,
}

/// The request line and header block of one request, with the encoding
/// negotiated from the `Accept-Encoding` header.
#[derive(Debug, Clone, PartialEq, Eq)]
pub struct Header {
    pub method: Method,
    pub url: Url,
    pub version: Version,
    pub headers: HeaderMap,
    pub accept_encoding: Option<Encoding>,
}

impl View for Header {
    type V = HeaderView;

    open spec fn view(&self) -> HeaderView {
        HeaderView {
            method: self.method,
            url: self.url@,
            version: self.version,
            headers: self.headers@,
            accept_encoding: self.accept_encoding,
        }
    }
}

/// Mathematical shape of a [`Request`].
pub ghost struct RequestView {
    pub header: HeaderView,
    pub body: Option<Seq<u8>>,
}

/// One parsed request: its header part and, when any bytes followed the
/// blank line, the raw body.
#[derive(Debug, Clone, PartialEq, Eq)]
pub struct Request {
    pub header: Header,
    pub body: Option<Vec<u8>>,
}

impl View for Request {
    type V = RequestView;

    open spec fn view(&self) -> RequestView {
        RequestView {
            header: self.header@,
            body: match self.body {
                Some(v) => Some(v@),
                None => None,
            },
        }
    }
}

/// The single kind of parse failure. The context trail names the grammar
/// rules that were being attempted, for a human reader only.
#[derive(Debug, Clone, PartialEq, Eq)]
pub struct ParseError {
    pub context: Vec<String>,
}

/// True when a CRLF pair sits at position `i` of `s`.
pub open spec fn is_crlf_at(s: Seq<u8>, i: int) -> bool {
    &&& 0 <= i
    &&& i + 2 <= s.len()
    &&& s[i] == ('\r' as u8)
    &&& s[i + 1] == ('\n' as u8)
}

/// ASCII upper-casing of one byte; other bytes are unchanged.
pub open spec fn spec_ascii_upper(b: u8) -> u8 {
    if ('a' as u8) <= b && b <= ('z' as u8) {
        (b - 32) as u8
    } else {
        b
    }
}

/// Byte-wise ASCII case-insensitive equality.
pub open spec fn eq_no_case(s: Seq<u8>, t: Seq<u8>) -> bool {
    s.len() == t.len() && (forall|i: int|
        0 <= i < s.len() ==> spec_ascii_upper(s[i]) == spec_ascii_upper(t[i]))
}

pub open spec fn spec_get_token() -> Seq<u8> {
    seq!['G' as u8, 'E' as u8, 'T' as u8]
}

pub open spec fn spec_post_token() -> Seq<u8> {
    seq!['P' as u8, 'O' as u8, 'S' as u8, 'T' as u8]
}

pub open spec fn spec_http11_token() -> Seq<u8> {
    seq!['H' as u8, 'T' as u8, 'T' as u8, 'P' as u8, '/' as u8, '1' as u8, '.' as u8, '1' as u8]
}

/// The method token at the start of `s`, matched case-insensitively,
/// with the offset just past it.
pub open spec fn spec_match_method(s: Seq<u8>) -> Option<(Method, int)> {
    if s.len() >= 3 && eq_no_case(s.subrange(0, 3), spec_get_token()) {
        Some((Method::Get, 3int))
    } else if s.len() >= 4 && eq_no_case(s.subrange(0, 4), spec_post_token()) {
        Some((Method::Post, 4int))
    } else {
        None
    }
}

/// Result of matching a request line: the method, the raw target bytes
/// between the two spaces, and the offset just past the closing CRLF.
pub ghost struct SpecRequestLine {
    pub method: Method,
    pub target: Seq<u8>,
    pub next: int,
}

/// Match `METHOD SP TARGET SP VERSION CRLF` at the start of `s`.
pub open spec fn spec_request_line(s: Seq<u8>) -> Option<SpecRequestLine> {
    match spec_match_method(s) {
        None => None,
        Some((m, i)) => if i < s.len() && s[i] == (' ' as u8) {
            match spec_find(s, i + 1, ' ' as u8) {
                None => None,
                Some(sp) => {
                    let v = sp + 1;
                    if v + 8 <= s.len() && eq_no_case(s.subrange(v, v + 8), spec_http11_token())
                        && is_crlf_at(s, v + 8) {
                        Some(
                            SpecRequestLine {
                                method: m,
                                target: s.subrange(i + 1, sp),
                                next: v + 10,
                            },
                        )
                    } else {
                        None
                    }
                },
            }
        } else {
            None
        },
    }
}

/// Split target bytes at the first `?`: the path, and the raw query when
/// a `?` is present.
pub open spec fn spec_split_query(t: Seq<u8>) -> (Seq<u8>, Option<Seq<u8>>) {
    match spec_find(t, 0, '?' as u8) {
        None => (t, None),
        Some(q) => (t.subrange(0, q), Some(t.subrange(q + 1, t.len() as int))),
    }
}

/// The non-empty pieces of `p` from offset `from` on, split at `/`.
pub open spec fn spec_slash_pieces(p: Seq<u8>, from: int) -> Seq<Seq<u8>>
    decreases p.len() - from,
{
    if !(0 <= from <= p.len()) {
        Seq::empty()
    } else {
        match spec_find(p, from, '/' as u8) {
            None => {
                let piece = p.subrange(from, p.len() as int);
                if piece.len() == 0 {
                    Seq::empty()
                } else {
                    seq![piece]
                }
            },
            Some(j) => if from <= j < p.len() {
                let piece = p.subrange(from, j);
                (if piece.len() == 0 {
                    Seq::<Seq<u8>>::empty()
                } else {
                    seq![piece]
                }) + spec_slash_pieces(p, j + 1)
            } else {
                Seq::empty()
            },
        }
    }
}

/// The byte form of each URL section: the root path is the single
/// section `/`, any other path is its non-empty slash-separated pieces.
pub open spec fn spec_sections_bytes(path: Seq<u8>) -> Seq<Seq<u8>> {
    if path == seq!['/' as u8] {
        seq![seq!['/' as u8]]
    } else {
        spec_slash_pieces(path, 0)
    }
}

/// True when every textual piece of the target decodes as UTF-8.
pub open spec fn spec_url_ok(t: Seq<u8>) -> bool {
    let (path, query) = spec_split_query(t);
    &&& (query is Some ==> valid_utf8(query->0))
    &&& (forall|i: int|
        0 <= i < spec_sections_bytes(path).len() ==> valid_utf8(
            #[trigger] spec_sections_bytes(path)[i],
        ))
}

/// Each byte piece decoded from UTF-8.
pub open spec fn spec_decode_pieces(ps: Seq<Seq<u8>>) -> Seq<Seq<char>> {
    ps.map_values(|p: Seq<u8>| decode_utf8(p))
}

/// The URL denoted by the target bytes, assuming `spec_url_ok`.
pub open spec fn spec_url_view(t: Seq<u8>) -> UrlView {
    let (path, query) = spec_split_query(t);
    UrlView {
        sections: spec_decode_pieces(spec_sections_bytes(path)),
        query: match query {
            None => None,
            Some(q) => Some(decode_utf8(q)),
        },
    }
}

/// Least index `j >= from` at which a CRLF pair sits.
pub open spec fn spec_find_crlf(s: Seq<u8>, from: int) -> Option<int>
    decreases s.len() - from,
{
    if from < 0 || from + 2 > s.len() {
        None
    } else if is_crlf_at(s, from) {
        Some(from)
    } else {
        spec_find_crlf(s, from + 1)
    }
}

pub proof fn lemma_spec_find_crlf(s: Seq<u8>, from: int)
    requires
        0 <= from <= s.len(),
    ensures
        match spec_find_crlf(s, from) {
            Some(j) => from <= j && j + 2 <= s.len() && is_crlf_at(s, j) && (forall|k: int|
                from <= k < j ==> !is_crlf_at(s, k)),
            None => forall|k: int| from <= k < s.len() ==> !is_crlf_at(s, k),
        },
    decreases s.len() - from,
{
    if from + 2 <= s.len() && !is_crlf_at(s, from) {
        lemma_spec_find_crlf(s, from + 1);
    }
}

/// Scan `s` from `from` for the first CRLF pair.
fn find_crlf(s: &[u8], from: usize) -> (r: Option<usize>)
    requires
        from <= s@.len(),
    ensures
        match r {
            Some(j) => spec_find_crlf(s@, from as int) == Some(j as int),
            None => spec_find_crlf(s@, from as int) is None,
        },
{
    let n = s.len();
    let mut i = from;
    while n - i >= 2
        invariant
            from <= i <= n,
            n == s@.len(),
            spec_find_crlf(s@, from as int) == spec_find_crlf(s@, i as int),
        decreases n - i,
    {
        if s[i] == '\r' as u8 && s[i + 1] == '\n' as u8 {
            return Some(i);
        }
        i = i + 1;
    }
    None
}

/// Match one header line at offset `i`. A line runs to the first CRLF;
/// within it, the name is everything before the first colon, which a
/// single space must follow, and the value is the rest. `Some(None)`
/// means the header block ends here: the empty line, or the end of the
/// buffer. `None` means a malformed line — no closing CRLF, or no
/// colon-space within the line, or a name or value that is not text —
/// and it is a fatal parse error. `Some(Some(...))` gives the name, the
/// value, and the offset just past the line's CRLF.
pub open spec fn spec_header_line(s: Seq<u8>, i: int) -> Option<
    Option<((Seq<char>, Seq<char>), int)>,
> {
    if i == s.len() || is_crlf_at(s, i) {
        Some(None)
    } else {
        match spec_find_crlf(s, i) {
            None => None,
            Some(e) => match spec_find(s, i, ':' as u8) {
                None => None,
                Some(c) => if c < e && s[c + 1] == (' ' as u8) {
                    let kb = s.subrange(i, c);
                    let vb = s.subrange(c + 2, e);
                    if valid_utf8(kb) && valid_utf8(vb) {
                        Some(Some(((decode_utf8(kb), decode_utf8(vb)), e + 2)))
                    } else {
                        None
                    }
                } else {
                    None
                },
            },
        }
    }
}

/// The (name, value) pairs of the header lines from offset `i` on, in
/// order, with the offset at which the block ends: the terminating
/// empty line, or the end of the buffer. `None` on a malformed line.
pub open spec fn spec_header_pairs(s: Seq<u8>, i: int) -> Option<
    (Seq<(Seq<char>, Seq<char>)>, int),
>
    decreases s.len() - i,
{
    match spec_header_line(s, i) {
        None => None,
        Some(None) => Some((Seq::empty(), i)),
        Some(Some((p, j))) => if i < j <= s.len() {
            match spec_header_pairs(s, j) {
                None => None,
                Some((rest, end)) => Some((seq![p] + rest, end)),
            }
        } else {
            Some((Seq::empty(), i))
        },
    }
}

/// The header map bound by a sequence of (name, value) pairs, later
/// pairs overwriting earlier ones.
pub open spec fn spec_fold_pairs(ps: Seq<(Seq<char>, Seq<char>)>) -> Map<Seq<char>, Seq<char>>
    decreases ps.len(),
{
    if ps.len() == 0 {
        Map::empty()
    } else {
        spec_fold_pairs(ps.drop_last()).insert(ps.last().0, ps.last().1)
    }
}

/// Given two header lines with the same name, the later value wins:
/// the map bound by the lines holds, at that name, the value of the
/// last line carrying it.
pub proof fn lemma_header_folding(ps: Seq<(Seq<char>, Seq<char>)>, i: int, j: int)
    requires
        0 <= i < ps.len(),
        i <= j < ps.len(),
        ps[j].0 == ps[i].0,
        forall|l: int| j < l < ps.len() ==> ps[l].0 != ps[i].0,
    ensures
        spec_fold_pairs(ps).contains_key(ps[i].0),
        spec_fold_pairs(ps)[ps[i].0] == ps[j].1,
    decreases ps.len(),
{
    if j == ps.len() - 1 {
    } else {
        assert(ps.drop_last()[i] == ps[i] && ps.drop_last()[j] == ps[j]);
        assert(forall|l: int| j < l < ps.len() - 1 ==> ps.drop_last()[l].0 != ps[i].0);
        lemma_header_folding(ps.drop_last(), i, j);
        assert(ps.last().0 != ps[i].0);
    }
}

/// The encoding negotiated from the header map: gzip exactly when the
/// `Accept-Encoding` header equals the token `gzip`.
pub open spec fn spec_negotiate(m: Map<Seq<char>, Seq<char>>) -> Option<Encoding> {
    if m.contains_key("Accept-Encoding"@) && m["Accept-Encoding"@] == "gzip"@ {
        Some(Encoding::Gzip)
    } else {
        None
    }
}

/// What parsing a whole buffered message yields: the request and the
/// bytes left over — a request consumes its whole message, so they are
/// always empty — or nothing when the bytes are not a request.
pub open spec fn spec_parse(s: Seq<u8>) -> Option<(RequestView, Seq<u8>)> {
    match spec_request_line(s) {
        None => None,
        Some(rl) => if !spec_url_ok(rl.target) {
            None
        } else {
            match spec_header_pairs(s, rl.next) {
                None => None,
                Some((ps, j)) => {
                    let m = spec_fold_pairs(ps);
                    let hv = HeaderView {
                        method: rl.method,
                        url: spec_url_view(rl.target),
                        version: Version::Http11,
                        headers: m,
                        accept_encoding: spec_negotiate(m),
                    };
                    let body = if is_crlf_at(s, j) && j + 2 < s.len() {
                        Some(s.subrange(j + 2, s.len() as int))
                    } else {
                        None
                    };
                    Some((RequestView { header: hv, body }, Seq::empty()))
                },
            }
        },
    }
}

/// True of the colon byte that separates a header name from its value.
pub fn is_colon(c: u8) -> (r: bool)
    ensures
        r == (c == (':' as u8)),
{
    c == ':' as u8
}

/// ASCII upper-casing of one byte.
fn ascii_upper(b: u8) -> (r: u8)
    ensures
        r == spec_ascii_upper(b),
{
    if b >= 'a' as u8 && b <= 'z' as u8 {
        b - 32
    } else {
        b
    }
}

/// Match the method token at the start of `buf`, case-insensitively.
pub fn parse_method(buf: &[u8]) -> (r: Option<(Method, usize)>)
    ensures
        match r {
            Some((m, i)) => spec_match_method(buf@) == Some((m, i as int)),
            None => spec_match_method(buf@) is None,
        },
{
    if buf.len() >= 3 && ascii_upper(buf[0]) == 'G' as u8 && ascii_upper(buf[1]) == 'E' as u8
        && ascii_upper(buf[2]) == 'T' as u8 {
        proof {
            let s = buf@.subrange(0, 3);
            assert forall|i: int| 0 <= i < 3 implies spec_ascii_upper(s[i]) == spec_ascii_upper(
                spec_get_token()[i],
            ) by {
                assert(s[i] == buf@[i]);
            }
        }
        Some((Method::Get, 3))
    } else if buf.len() >= 4 && ascii_upper(buf[0]) == 'P' as u8 && ascii_upper(buf[1])
        == 'O' as u8 && ascii_upper(buf[2]) == 'S' as u8 && ascii_upper(buf[3]) == 'T' as u8 {
        proof {
            let s = buf@.subrange(0, 4);
            assert forall|i: int| 0 <= i < 4 implies spec_ascii_upper(s[i]) == spec_ascii_upper(
                spec_post_token()[i],
            ) by {
                assert(s[i] == buf@[i]);
            }
            if buf@.len() >= 3 && eq_no_case(buf@.subrange(0, 3), spec_get_token()) {
                assert(spec_ascii_upper(buf@.subrange(0, 3)[0]) == spec_ascii_upper(
                    spec_get_token()[0],
                ));
                assert(false);
            }
        }
        Some((Method::Post, 4))
    } else {
        proof {
            if buf@.len() >= 3 && eq_no_case(buf@.subrange(0, 3), spec_get_token()) {
                assert(spec_ascii_upper(buf@.subrange(0, 3)[0]) == spec_ascii_upper(
                    spec_get_token()[0],
                ));
                assert(spec_ascii_upper(buf@.subrange(0, 3)[1]) == spec_ascii_upper(
                    spec_get_token()[1],
                ));
                assert(spec_ascii_upper(buf@.subrange(0, 3)[2]) == spec_ascii_upper(
                    spec_get_token()[2],
                ));
                assert(false);
            }
            if buf@.len() >= 4 && eq_no_case(buf@.subrange(0, 4), spec_post_token()) {
                assert(spec_ascii_upper(buf@.subrange(0, 4)[0]) == spec_ascii_upper(
                    spec_post_token()[0],
                ));
                assert(spec_ascii_upper(buf@.subrange(0, 4)[1]) == spec_ascii_upper(
                    spec_post_token()[1],
                ));
                assert(spec_ascii_upper(buf@.subrange(0, 4)[2]) == spec_ascii_upper(
                    spec_post_token()[2],
                ));
                assert(spec_ascii_upper(buf@.subrange(0, 4)[3]) == spec_ascii_upper(
                    spec_post_token()[3],
                ));
                assert(false);
            }
        }
        None
    }
}

/// Match the version token `HTTP/1.1` at offset `i`, case-insensitively.
pub fn parse_version(buf: &[u8], i: usize) -> (r: bool)
    requires
        i <= buf@.len(),
    ensures
        r == (i + 8 <= buf@.len() && eq_no_case(
            buf@.subrange(i as int, i + 8),
            spec_http11_token(),
        )),
{
    if buf.len() - i < 8 {
        return false;
    }
    let ok = ascii_upper(buf[i]) == 'H' as u8 && ascii_upper(buf[i + 1]) == 'T' as u8
        && ascii_upper(buf[i + 2]) == 'T' as u8 && ascii_upper(buf[i + 3]) == 'P' as u8 && buf[i
        + 4] == '/' as u8 && buf[i + 5] == '1' as u8 && buf[i + 6] == '.' as u8 && buf[i + 7]
        == '1' as u8;
    proof {
        let s = buf@.subrange(i as int, i + 8);
        let t = spec_http11_token();
        if ok {
            assert forall|k: int| 0 <= k < 8 implies spec_ascii_upper(s[k]) == spec_ascii_upper(
                t[k],
            ) by {
                assert(s[k] == buf@[i + k]);
            }
        } else {
            if eq_no_case(s, t) {
                assert forall|k: int| 0 <= k < 8 implies spec_ascii_upper(buf@[i + k])
                    == spec_ascii_upper(t[k]) by {
                    assert(s[k] == buf@[i + k]);
                }
                assert(false);
            }
        }
    }
    ok
}

/// Match the whole request line at the start of `buf`. On success the
/// result carries the method, the target's byte range, and the offset of
/// the first header byte.
pub fn parse_request_line(buf: &[u8]) -> (r: Option<(Method, usize, usize, usize)>)
    ensures
        match r {
            Some((m, ts, te, next)) => {
                &&& spec_request_line(buf@) matches Some(rl)
                &&& rl.method == m
                &&& ts <= te <= buf@.len()
                &&& rl.target == buf@.subrange(ts as int, te as int)
                &&& rl.next == next as int
                &&& next <= buf@.len()
            },
            None => spec_request_line(buf@) is None,
        },
{
    let m = match parse_method(buf) {
        None => {
            return None;
        },
        Some(mi) => mi,
    };
    let (method, i) = m;
    if !(i < buf.len() && buf[i] == ' ' as u8) {
        return None;
    }
    let sp = match find_byte(buf, i + 1, ' ' as u8) {
        None => {
            return None;
        },
        Some(sp) => sp,
    };
    proof {
        lemma_spec_find(buf@, i + 1, ' ' as u8);
    }
    let v = sp + 1;
    if !parse_version(buf, v) {
        return None;
    }
    if !(buf.len() - v >= 10 && buf[v + 8] == '\r' as u8 && buf[v + 9] == '\n' as u8) {
        return None;
    }
    Some((method, i + 1, sp, v + 10))
}

proof fn lemma_decode_slash()
    ensures
        valid_utf8(seq!['/' as u8]),
        decode_utf8(seq!['/' as u8]) == seq!['/'],
{
    let s = seq!['/' as u8];
    assert(s.len() == 1 && s[0] == '/' as u8);
    assert('/' as u8 == 47u8);
    assert(vstd::utf8::is_leading_byte_width_1(47u8));
    assert(47u8 & 0x7f == 47u8) by (bit_vector);
    assert(vstd::utf8::codepoint_width_1(47u8) == 47u32);
    assert(vstd::utf8::length_of_first_scalar(s) == 1);
    assert(vstd::utf8::pop_first_scalar(s) =~= Seq::<u8>::empty());
    assert(valid_utf8(Seq::<u8>::empty()));
    assert(vstd::utf8::valid_first_scalar(s));
    assert(valid_utf8(s));
    assert('/' as u32 == 47u32);
    vstd::utf8::char_u32_cast('/', 47u32);
    assert(vstd::utf8::decode_first_scalar(s) == 47u32);
    assert(decode_utf8(s) == seq![vstd::utf8::decode_first_scalar(s) as char] + decode_utf8(
        vstd::utf8::pop_first_scalar(s),
    ));
    assert(decode_utf8(Seq::<u8>::empty()) =~= Seq::<char>::empty());
    assert(decode_utf8(s) =~= seq!['/']);
}

/// Splitting a valid UTF-8 sequence around a one-byte (ASCII) character
/// leaves two valid UTF-8 sequences.
proof fn lemma_split_at_byte(t: Seq<u8>, q: int)
    requires
        valid_utf8(t),
        0 <= q < t.len(),
        vstd::utf8::is_leading_byte_width_1(t[q]),
    ensures
        valid_utf8(t.subrange(0, q)),
        valid_utf8(t.subrange(q + 1, t.len() as int)),
{
    vstd::utf8::is_char_boundary_iff_not_is_continuation_byte(t, q);
    vstd::utf8::valid_utf8_split(t, q);
    let s2 = t.subrange(q, t.len() as int);
    assert(valid_utf8(s2));
    assert(s2.len() > 0 && s2[0] == t[q]);
    assert(vstd::utf8::valid_first_scalar(s2));
    assert(vstd::utf8::length_of_first_scalar(s2) == 1);
    assert(vstd::utf8::pop_first_scalar(s2) =~= t.subrange(q + 1, t.len() as int));
    assert(valid_utf8(t.subrange(q + 1, t.len() as int)));
}

/// Every slash-separated piece of a valid UTF-8 path is valid UTF-8.
proof fn lemma_slash_pieces_valid(p: Seq<u8>, from: int)
    requires
        0 <= from <= p.len(),
        valid_utf8(p.subrange(from, p.len() as int)),
    ensures
        forall|i: int|
            0 <= i < spec_slash_pieces(p, from).len() ==> valid_utf8(
                #[trigger] spec_slash_pieces(p, from)[i],
            ),
    decreases p.len() - from,
{
    let rest = p.subrange(from, p.len() as int);
    lemma_spec_find(p, from, '/' as u8);
    match spec_find(p, from, '/' as u8) {
        None => {
            assert(p.subrange(from, p.len() as int) =~= rest);
        },
        Some(j) => {
            assert(rest[j - from] == p[j]);
            assert(p[j] == '/' as u8 && ('/' as u8) < 0x80);
            lemma_split_at_byte(rest, j - from);
            assert(rest.subrange(0, j - from) =~= p.subrange(from, j));
            assert(rest.subrange(j - from + 1, rest.len() as int) =~= p.subrange(
                j + 1,
                p.len() as int,
            ));
            lemma_slash_pieces_valid(p, j + 1);
            let pieces = spec_slash_pieces(p, from);
            let tail = spec_slash_pieces(p, j + 1);
            assert forall|i: int| 0 <= i < pieces.len() implies valid_utf8(
                #[trigger] pieces[i],
            ) by {
                if p.subrange(from, j).len() == 0 {
                    assert(pieces[i] == tail[i]);
                } else {
                    if i == 0 {
                        assert(pieces[0] == p.subrange(from, j));
                    } else {
                        assert(pieces[i] == tail[i - 1]);
                    }
                }
            }
        },
    }
}

/// A target taken from textual (valid UTF-8) bytes always denotes a URL.
proof fn lemma_url_ok_of_valid(t: Seq<u8>)
    requires
        valid_utf8(t),
    ensures
        spec_url_ok(t),
{
    lemma_spec_find(t, 0, '?' as u8);
    match spec_find(t, 0, '?' as u8) {
        None => {
            assert(t.subrange(0, t.len() as int) =~= t);
            lemma_slash_pieces_valid(t, 0);
            let (path, query) = spec_split_query(t);
            assert(path == t);
            assert forall|i: int| 0 <= i < spec_sections_bytes(path).len() implies valid_utf8(
                #[trigger] spec_sections_bytes(path)[i],
            ) by {
                if path == seq!['/' as u8] {
                    lemma_decode_slash();
                }
            }
        },
        Some(q) => {
            assert(t[q] == '?' as u8 && ('?' as u8) < 0x80);
            lemma_split_at_byte(t, q);
            let path = t.subrange(0, q);
            assert(path.subrange(0, path.len() as int) =~= path);
            lemma_slash_pieces_valid(path, 0);
            assert forall|i: int| 0 <= i < spec_sections_bytes(path).len() implies valid_utf8(
                #[trigger] spec_sections_bytes(path)[i],
            ) by {
                if path == seq!['/' as u8] {
                    lemma_decode_slash();
                }
            }
        },
    }
}

/// Parse target bytes into a [`Url`]; `None` when a textual piece of the
/// target is not valid UTF-8.
pub fn url_from_bytes(t: &[u8]) -> (r: Option<Url>)
    ensures
        match r {
            Some(u) => spec_url_ok(t@) && u@ == spec_url_view(t@),
            None => !spec_url_ok(t@),
        },
{
    let ghost spath = spec_split_query(t@).0;
    let ghost squery = spec_split_query(t@).1;
    let tlen = t.len();
    let (pend, query): (usize, Option<String>) = match find_byte(t, 0, '?' as u8) {
        None => {
            proof {
                assert(spath == t@ && t@.subrange(0, t@.len() as int) =~= t@);
            }
            (tlen, None)
        },
        Some(q) => {
            proof {
                lemma_spec_find(t@, 0, '?' as u8);
                assert(q < tlen);
            }
            let qv = vstd::slice::slice_to_vec(vstd::slice::slice_subrange(t, q + 1, tlen));
            match string_from_utf8(qv) {
                None => {
                    proof {
                        assert(squery == Some(t@.subrange(q + 1, t@.len() as int)));
                        assert(!spec_url_ok(t@));
                    }
                    return None;
                },
                Some(qs) => (q, Some(qs)),
            }
        },
    };
    let path = vstd::slice::slice_subrange(t, 0, pend);
    proof {
        assert(path@ == spath);
    }
    if path.len() == 1 && path[0] == '/' as u8 {
        proof {
            assert(spath =~= seq!['/' as u8]);
            lemma_decode_slash();
        }
        let mut sections: Vec<String> = Vec::new();
        sections.push(String::from_str("/"));
        proof {
            reveal_strlit("/");
            assert("/"@ =~= seq!['/']);
            let u = Url { sections, query };
            let sb = spec_sections_bytes(spath);
            assert(sb == seq![seq!['/' as u8]]);
            assert(spec_decode_pieces(sb).len() == 1);
            assert(spec_decode_pieces(sb)[0] == decode_utf8(seq!['/' as u8]));
            assert(u@.sections.len() == 1);
            assert(u@.sections[0] == sections@[0]@);
            assert(u@.sections[0] == "/"@);
            assert(u@.sections =~~= spec_url_view(t@).sections);
            assert(u@.query == spec_url_view(t@).query);
            assert(u@ == spec_url_view(t@));
            assert(spec_url_ok(t@));
        }
        return Some(Url { sections, query });
    }
    proof {
        assert(spath != seq!['/' as u8]);
        assert(spec_sections_bytes(spath) == spec_slash_pieces(spath, 0));
    }
    let mut sections: Vec<String> = Vec::new();
    let ghost mut done: Seq<Seq<u8>> = Seq::empty();
    let mut i: usize = 0;
    let mut more = true;
    while more
        invariant
            i <= path@.len(),
            path@ == spath,
            spath == spec_split_query(t@).0,
            spec_sections_bytes(spath) == spec_slash_pieces(spath, 0),
            more ==> spec_slash_pieces(spath, 0) == done + spec_slash_pieces(spath, i as int),
            !more ==> spec_slash_pieces(spath, 0) == done,
            sections@.len() == done.len(),
            forall|k: int| 0 <= k < done.len() ==> sections@[k]@ == decode_utf8(#[trigger] done[k]),
            forall|k: int| 0 <= k < done.len() ==> valid_utf8(#[trigger] done[k]),
        decreases path@.len() - i, (if more {
            1int
        } else {
            0int
        }),
    {
        let plen = path.len();
        proof {
            lemma_spec_find(spath, i as int, '/' as u8);
        }
        let ghost olddone = done;
        match find_byte(path, i, '/' as u8) {
            None => {
                if i < plen {
                    let pv = vstd::slice::slice_to_vec(
                        vstd::slice::slice_subrange(path, i, plen),
                    );
                    let ghost piece = spath.subrange(i as int, spath.len() as int);
                    match string_from_utf8(pv) {
                        None => {
                            proof {
                                assert(spec_slash_pieces(spath, i as int) == seq![piece]);
                                let all = spec_sections_bytes(spec_split_query(t@).0);
                                assert(all == done + seq![piece]);
                                assert(all[done.len() as int] == piece);
                                assert(!valid_utf8(piece));
                                if spec_url_ok(t@) {
                                    assert(valid_utf8(all[done.len() as int]));
                                    assert(false);
                                }
                            }
                            return None;
                        },
                        Some(ps) => {
                            sections.push(ps);
                            proof {
                                done = done.push(piece);
                                assert(spec_slash_pieces(spath, i as int) == seq![piece]);
                                assert(olddone + seq![piece] =~= done);
                                assert(spec_slash_pieces(spath, 0) =~= done);
                            }
                        },
                    }
                } else {
                    proof {
                        assert(spath.subrange(i as int, spath.len() as int).len() == 0);
                        assert(spec_slash_pieces(spath, i as int) =~= Seq::<Seq<u8>>::empty());
                        assert(done + Seq::<Seq<u8>>::empty() =~= done);
                    }
                }
                more = false;
            },
            Some(j) => {
                if j > i {
                    let pv = vstd::slice::slice_to_vec(vstd::slice::slice_subrange(path, i, j));
                    let ghost piece = spath.subrange(i as int, j as int);
                    match string_from_utf8(pv) {
                        None => {
                            proof {
                                assert(spec_slash_pieces(spath, i as int) == seq![piece]
                                    + spec_slash_pieces(spath, j + 1));
                                let all = spec_sections_bytes(spec_split_query(t@).0);
                                assert(all =~= done + (seq![piece] + spec_slash_pieces(
                                    spath,
                                    j + 1,
                                )));
                                assert(all[done.len() as int] == piece);
                                assert(!valid_utf8(piece));
                                if spec_url_ok(t@) {
                                    assert(valid_utf8(all[done.len() as int]));
                                    assert(false);
                                }
                            }
                            return None;
                        },
                        Some(ps) => {
                            sections.push(ps);
                            proof {
                                assert(spec_slash_pieces(spath, i as int) == seq![piece]
                                    + spec_slash_pieces(spath, j + 1));
                                assert(done + (seq![piece] + spec_slash_pieces(spath, j + 1)) =~= (
                                done.push(piece)) + spec_slash_pieces(spath, j + 1));
                                done = done.push(piece);
                            }
                        },
                    }
                } else {
                    proof {
                        assert(spath.subrange(i as int, j as int).len() == 0);
                        assert(spec_slash_pieces(spath, i as int) == Seq::<Seq<u8>>::empty()
                            + spec_slash_pieces(spath, j + 1));
                        assert(Seq::<Seq<u8>>::empty() + spec_slash_pieces(spath, j + 1)
                            =~= spec_slash_pieces(spath, j + 1));
                    }
                }
                i = j + 1;
            },
        }
    }
    proof {
        let u = Url { sections, query };
        assert forall|k: int|
            0 <= k < spec_sections_bytes(spath).len() implies valid_utf8(
            #[trigger] spec_sections_bytes(spath)[k],
        ) by {
            assert(spec_sections_bytes(spath)[k] == done[k]);
        }
        assert(spec_url_ok(t@));
        assert forall|k: int| 0 <= k < done.len() implies u@.sections[k] == spec_decode_pieces(
            spec_sections_bytes(spath),
        )[k] by {
            assert(u@.sections[k] == sections@[k]@);
            assert(spec_sections_bytes(spath)[k] == done[k]);
        }
        assert(u@.sections =~~= spec_url_view(t@).sections);
        assert(u@.query == spec_url_view(t@).query);
        assert(u@ == spec_url_view(t@));
    }
    Some(Url { sections, query })
}


impl Url {
    /// Build a `Url` from a textual target, exactly as the parser builds
    /// one from the same bytes.
    pub fn from(value: &str) -> (r: Url)
        ensures
            spec_url_ok(value.spec_bytes()),
            r@ == spec_url_view(value.spec_bytes()),
    {
        proof {
            broadcast use vstd::utf8::encode_utf8_valid_utf8;

            lemma_url_ok_of_valid(value.spec_bytes());
        }
        match url_from_bytes(value.as_bytes()) {
            Some(u) => u,
            None => {
                // a piece of text split at ASCII delimiters is text
                proof {
                    assert(false);
                }
                Url { sections: Vec::new(), query: None }
            },
        }
    }
}


impl ParseError {
    fn single(ctx: &str) -> ParseError {
        let mut context: Vec<String> = Vec::new();
        context.push(String::from_str(ctx));
        ParseError { context }
    }
}

/// Parse one header line at offset `i`: `Ok(Some(...))` gives the name,
/// the value, and the offset past the line's CRLF; `Ok(None)` means the
/// header block ends here (the empty line, or the end of the buffer);
/// `Err` means the line is malformed — it lacks a closing CRLF or the
/// colon-space separator — or its name or value is not text.
pub fn parse_header_line(buf: &[u8], i: usize) -> (r: Result<
    Option<(String, String, usize)>,
    ParseError,
>)
    requires
        i <= buf@.len(),
    ensures
        match r {
            Ok(Some((k, v, next))) => {
                &&& spec_header_line(buf@, i as int) == Some(
                    Some(((k@, v@), next as int)),
                )
                &&& i < next <= buf@.len()
            },
            Ok(None) => spec_header_line(buf@, i as int) == Some(
                None::<((Seq<char>, Seq<char>), int)>,
            ),
            Err(e) => spec_header_line(buf@, i as int) is None,
        },
{
    let blen = buf.len();
    if i == blen {
        return Ok(None);
    }
    if blen - i >= 2 && buf[i] == '\r' as u8 && buf[i + 1] == '\n' as u8 {
        return Ok(None);
    }
    proof {
        assert(!is_crlf_at(buf@, i as int));
    }
    let e = match find_crlf(buf, i) {
        None => {
            return Err(ParseError::single("header line"));
        },
        Some(e) => e,
    };
    proof {
        lemma_spec_find_crlf(buf@, i as int);
    }
    let c = match find_byte(buf, i, ':' as u8) {
        None => {
            return Err(ParseError::single("header line"));
        },
        Some(c) => c,
    };
    proof {
        lemma_spec_find(buf@, i as int, ':' as u8);
    }
    if !(c < e && buf[c + 1] == ' ' as u8) {
        return Err(ParseError::single("header line"));
    }
    proof {
        assert(buf@[e as int] == ('\r' as u8));
        assert(c + 1 < e);
    }
    let kv = vstd::slice::slice_to_vec(vstd::slice::slice_subrange(buf, i, c));
    let k = match string_from_utf8(kv) {
        None => {
            return Err(ParseError::single("header line"));
        },
        Some(k) => k,
    };
    let vv = vstd::slice::slice_to_vec(vstd::slice::slice_subrange(buf, c + 2, e));
    let v = match string_from_utf8(vv) {
        None => {
            return Err(ParseError::single("header line"));
        },
        Some(v) => v,
    };
    Ok(Some((k, v, e + 2)))
}

/// Parse the header block that starts at `start`: every line in order,
/// a later duplicate name overwriting an earlier one.
pub fn parse_header_lines(buf: &[u8], start: usize) -> (r: Result<(HeaderMap, usize), ParseError>)
    requires
        start <= buf@.len(),
    ensures
        match r {
            Ok((m, end)) => {
                &&& spec_header_pairs(buf@, start as int) matches Some((ps, j))
                    && m@ == spec_fold_pairs(ps) && end as int == j
                &&& start <= end <= buf@.len()
            },
            Err(e) => spec_header_pairs(buf@, start as int) is None,
        },
{
    let mut m = HeaderMap::new();
    let ghost mut donepairs: Seq<(Seq<char>, Seq<char>)> = Seq::empty();
    let mut i = start;
    loop
        invariant
            start <= i <= buf@.len(),
            m@ == spec_fold_pairs(donepairs),
            match spec_header_pairs(buf@, start as int) {
                None => spec_header_pairs(buf@, i as int) is None,
                Some((ps, j)) => match spec_header_pairs(buf@, i as int) {
                    Some((rest, j2)) => ps == donepairs + rest && j == j2,
                    None => false,
                },
            },
        decreases buf@.len() - i,
    {
        match parse_header_line(buf, i) {
            Err(e) => {
                return Err(e);
            },
            Ok(None) => {
                proof {
                    assert(spec_header_pairs(buf@, i as int) == Some(
                        (Seq::<(Seq<char>, Seq<char>)>::empty(), i as int),
                    ));
                    assert(donepairs + Seq::<(Seq<char>, Seq<char>)>::empty() =~= donepairs);
                }
                return Ok((m, i));
            },
            Ok(Some((k, v, next))) => {
                let ghost kk = k@;
                let ghost vv = v@;
                let ghost oldpairs = donepairs;
                m.insert(k, v);
                proof {
                    donepairs = donepairs.push((kk, vv));
                    assert(donepairs.drop_last() =~= oldpairs);
                    assert(m@ == spec_fold_pairs(donepairs));
                    match spec_header_pairs(buf@, next as int) {
                        None => {},
                        Some((rest2, jj)) => {
                            assert(spec_header_pairs(buf@, i as int) == Some(
                                (seq![(kk, vv)] + rest2, jj),
                            ));
                            assert(oldpairs + (seq![(kk, vv)] + rest2) =~= donepairs + rest2);
                        },
                    }
                }
                i = next;
            },
        }
    }
}

fn negotiate(headers: &HeaderMap) -> (r: Option<Encoding>)
    ensures
        r == spec_negotiate(headers@),
{
    match headers.get("Accept-Encoding") {
        Some(v) => if str_eq(v.as_str(), "gzip") {
            Some(Encoding::Gzip)
        } else {
            None
        },
        None => None,
    }
}

/// Parse one buffered message into a request and the bytes left over,
/// which are always empty: a request consumes its whole message.
/// Exactly the byte strings accepted by the grammar in [`spec_parse`]
/// yield a request; anything else is a parse error.
pub fn parse<'a>(buf: &'a [u8]) -> (r: Result<(Request, &'a [u8]), ParseError>)
    ensures
        match r {
            Ok((req, rest)) => spec_parse(buf@) == Some((req@, rest@)),
            Err(e) => spec_parse(buf@) is None,
        },
{
    let blen = buf.len();
    let (method, ts, te, next) = match parse_request_line(buf) {
        None => {
            return Err(ParseError::single("request line"));
        },
        Some(x) => x,
    };
    let url = match url_from_bytes(vstd::slice::slice_subrange(buf, ts, te)) {
        None => {
            return Err(ParseError::single("url"));
        },
        Some(u) => u,
    };
    let (headers, j) = match parse_header_lines(buf, next) {
        Err(e) => {
            return Err(e);
        },
        Ok(x) => x,
    };
    let accept_encoding = negotiate(&headers);
    let header = Header { method, url, version: Version::Http11, headers, accept_encoding };
    let rest = vstd::slice::slice_subrange(buf, blen, blen);
    proof {
        assert(rest@ =~= Seq::<u8>::empty());
    }
    if blen - j >= 2 && buf[j] == '\r' as u8 && buf[j + 1] == '\n' as u8 && j + 2 < blen {
        let body = vstd::slice::slice_to_vec(vstd::slice::slice_subrange(buf, j + 2, blen));
        Ok((Request { header, body: Some(body) }, rest))
    } else {
        Ok((Request { header, body: None }, rest))
    }
}

} // verus!
