use vstd::prelude::*;
use vstd::slice::{slice_subrange, slice_to_vec};
use crate::buffer::{buffer_len, buffer_slice, frozen_bytes, frozen_slice, pending_bytes, split_frozen};

verus! {

#[verifier::external_type_specification]
#[verifier::external_body]
pub struct ExHttparseError(httparse::Error);

/// Why a request head was refused.
#[derive(Clone, Copy, Debug, PartialEq, Eq, Structural)]
pub enum Malformed {
    HeaderName,
    HeaderValue,
    NewLine,
    Status,
    Token,
    TooManyHeaders,
    Version,
}

/// The most headers that a request head may carry.
pub const MAX_HEADERS: usize = 256;

/// A request head as the parser reports it: the length of the head, the request line's
/// parts and the headers in order.
pub struct Head {
    pub amt: usize,
    pub method: Vec<u8>,
    pub path: Vec<u8>,
    pub version: u8,
    pub headers: Vec<(Vec<u8>, Vec<u8>)>,
}

/// The outcome of one attempt to parse a request head.
pub enum HeadScan {
    Complete(Head),
    Partial,
    Invalid(httparse::Error),
}

pub struct HeadView {
    pub amt: nat,
    pub method: Seq<u8>,
    pub path: Seq<u8>,
    pub version: u8,
    pub headers: Seq<(Seq<u8>, Seq<u8>)>,
}

pub enum HeadScanView {
    Complete(HeadView),
    Partial,
    Invalid(Malformed),
}

pub open spec fn pairs_view(h: Seq<(Vec<u8>, Vec<u8>)>) -> Seq<(Seq<u8>, Seq<u8>)> {
    h.map_values(|p: (Vec<u8>, Vec<u8>)| (p.0@, p.1@))
}

impl View for Head {
    type V = HeadView;

    open spec fn view(&self) -> HeadView {
        HeadView {
            amt: self.amt as nat,
            method: self.method@,
            path: self.path@,
            version: self.version,
            headers: pairs_view(self.headers@),
        }
    }
}

impl View for HeadScan {
    type V = HeadScanView;

    open spec fn view(&self) -> HeadScanView {
        match self {
            HeadScan::Complete(h) => HeadScanView::Complete(h@),
            HeadScan::Partial => HeadScanView::Partial,
            HeadScan::Invalid(e) => HeadScanView::Invalid(reason_for(*e)),
        }
    }
}

/// What the HTTP/1.x request parser makes of `buf`.
pub uninterp spec fn head_scan(buf: Seq<u8>) -> HeadScanView;

/// Relies on httparse::Request::parse with room for `MAX_HEADERS` headers: its outcome depends on the
/// bytes alone, and a complete head ends within the buffer.
#[verifier::external_body]
fn scan_head(buf: &[u8]) -> (r: HeadScan)
    ensures
        r@ == head_scan(buf@),
        r matches HeadScan::Complete(h) ==> h.amt <= buf@.len() && h.headers@.len() <= MAX_HEADERS,
        r matches HeadScan::Complete(h) ==> {
            let head = buf@.take(h.amt as int);
            &&& occurs_in(head, h.method@)
            &&& occurs_in(head, h.path@)
            &&& forall|i: int|
                0 <= i < h.headers@.len() ==> occurs_in(head, (#[trigger] h.headers@[i]).0@) && occurs_in(
                    head,
                    h.headers@[i].1@,
                )
        },
{
    let mut hs = [httparse::EMPTY_HEADER; MAX_HEADERS];
    let mut req = httparse::Request::new(&mut hs);
    match req.parse(buf) {
        Ok(httparse::Status::Complete(amt)) => HeadScan::Complete(Head {
            amt,
            method: req.method.unwrap_or_default().as_bytes().to_vec(),
            path: req.path.unwrap_or_default().as_bytes().to_vec(),
            version: req.version.unwrap_or_default(),
            headers: req.headers.iter().map(|h| (h.name.as_bytes().to_vec(), h.value.to_vec())).collect(),
        }),
        Ok(httparse::Status::Partial) => HeadScan::Partial,
        Err(e) => HeadScan::Invalid(e),
    }
}

/// The reason that stands for a parser error.
pub uninterp spec fn reason_for(e: httparse::Error) -> Malformed;

/// Relies on the variants of httparse::Error, one for one.
#[verifier::external_body]
fn reason_of(e: httparse::Error) -> (r: Malformed)
    ensures
        r == reason_for(e),
{
    match e {
        httparse::Error::HeaderName => Malformed::HeaderName,
        httparse::Error::HeaderValue => Malformed::HeaderValue,
        httparse::Error::NewLine => Malformed::NewLine,
        httparse::Error::Status => Malformed::Status,
        httparse::Error::Token => Malformed::Token,
        httparse::Error::TooManyHeaders => Malformed::TooManyHeaders,
        httparse::Error::Version => Malformed::Version,
    }
}

/// The text that `b` reads as, with each ill-formed UTF-8 sequence replaced.
pub uninterp spec fn lossy_text(b: Seq<u8>) -> Seq<char>;

/// Relies on String::from_utf8_lossy: the text depends on the bytes alone.
#[verifier::external_body]
fn text_of(b: &[u8]) -> (r: String)
    ensures
        r@ == lossy_text(b@),
{
    String::from_utf8_lossy(b).into_owned()
}

/// `content-length`
pub open spec fn content_length_name() -> Seq<u8> {
    seq![99u8, 111, 110, 116, 101, 110, 116, 45, 108, 101, 110, 103, 116, 104]
}

pub open spec fn ascii_lower(b: u8) -> u8 {
    if 65 <= b <= 90 {
        (b + 32) as u8
    } else {
        b
    }
}

/// Whether a header name is `Content-Length`, in any case.
pub open spec fn names_content_length(name: Seq<u8>) -> bool {
    &&& name.len() == 14
    &&& forall|i: int| 0 <= i < 14 ==> ascii_lower(#[trigger] name[i]) == content_length_name()[i]
}

pub open spec fn is_digit(b: u8) -> bool {
    48 <= b <= 57
}

/// The number that a run of decimal digits denotes.
pub open spec fn digits_value(s: Seq<u8>) -> nat
    decreases s.len(),
{
    if s.len() == 0 {
        0
    } else {
        digits_value(s.drop_last()) * 10 + (s.last() - 48) as nat
    }
}

/// The digits of an unsigned decimal, after an optional `+`.
pub open spec fn unsigned_digits(s: Seq<u8>) -> Seq<u8> {
    if s.len() > 0 && s[0] == 43u8 {
        s.drop_first()
    } else {
        s
    }
}

/// `s` read as a base-10 `usize`: an optional `+`, then one or more digits, of a value
/// that fits.
pub open spec fn parse_usize(s: Seq<u8>) -> Option<nat> {
    let d = unsigned_digits(s);
    if d.len() > 0 && (forall|i: int| 0 <= i < d.len() ==> is_digit(#[trigger] d[i]))
        && digits_value(d) <= usize::MAX {
        Some(digits_value(d))
    } else {
        None
    }
}

/// The body length that a `Content-Length` value declares: 0 where it does not parse.
pub open spec fn declared_length(v: Seq<u8>) -> nat {
    match parse_usize(v) {
        Some(n) => n,
        None => 0,
    }
}

/// The body length that headers declare: the last `Content-Length` header counts, and
/// without one it is 0.
pub open spec fn content_length(h: Seq<(Seq<u8>, Seq<u8>)>) -> nat
    decreases h.len(),
{
    if h.len() == 0 {
        0
    } else if names_content_length(h.last().0) {
        declared_length(h.last().1)
    } else {
        content_length(h.drop_last())
    }
}

proof fn lemma_digits_prefix(d: Seq<u8>, i: int)
    requires
        0 <= i <= d.len(),
        forall|k: int| 0 <= k < d.len() ==> is_digit(#[trigger] d[k]),
    ensures
        digits_value(d.take(i)) <= digits_value(d),
    decreases d.len(),
{
    if i < d.len() {
        let e = d.drop_last();
        assert(e.take(i) =~= d.take(i));
        assert forall|k: int| 0 <= k < e.len() implies is_digit(#[trigger] e[k]) by {
            assert(e[k] == d[k]);
        }
        lemma_digits_prefix(e, i);
    } else {
        assert(d.take(i) =~= d);
    }
}

/// Reads a `Content-Length` value.
pub fn parse_length(v: &[u8]) -> (r: usize)
    ensures
        r == declared_length(v@),
{
    let mut i: usize = 0;
    if v.len() > 0 && v[0] == 43 {
        i = 1;
    }
    let start = i;
    let ghost d = unsigned_digits(v@);
    assert(d =~= v@.skip(start as int));
    if i == v.len() {
        return 0;
    }
    let mut acc: usize = 0;
    while i < v.len()
        invariant
            start <= i <= v@.len(),
            d == v@.skip(start as int),
            d == unsigned_digits(v@),
            acc == digits_value(d.take(i - start)),
            forall|k: int| 0 <= k < i - start ==> is_digit(#[trigger] d[k]),
        decreases v@.len() - i,
    {
        let b = v[i];
        if b < 48 || b > 57 {
            assert(!is_digit(d[i - start]));
            assert(unsigned_digits(v@) == d);
            assert(!(forall|k: int| 0 <= k < d.len() ==> is_digit(#[trigger] d[k])));
            assert(parse_usize(v@) is None);
            return 0;
        }
        assert(d.take(i - start + 1).drop_last() =~= d.take(i - start));
        assert(d.take(i - start + 1).last() == b);
        assert(digits_value(d.take(i - start + 1)) == acc * 10 + (b - 48) as nat);
        let step = acc.checked_mul(10);
        match step {
            None => {
                proof {
                    if forall|k: int| 0 <= k < d.len() ==> is_digit(#[trigger] d[k]) {
                        lemma_digits_prefix(d, i - start + 1);
                    }
                    assert(parse_usize(v@) is None);
                }
                return 0;
            },
            Some(m) => {
                match m.checked_add((b - 48) as usize) {
                    None => {
                        proof {
                            if forall|k: int| 0 <= k < d.len() ==> is_digit(#[trigger] d[k]) {
                                lemma_digits_prefix(d, i - start + 1);
                            }
                    assert(parse_usize(v@) is None);
                        }
                        return 0;
                    },
                    Some(next) => {
                        acc = next;
                    },
                }
            },
        }
        i = i + 1;
    }
    assert(d.take(i - start) =~= d);
    acc
}

/// Whether `name` is `Content-Length`, in any case.
pub fn is_content_length(name: &[u8]) -> (r: bool)
    ensures
        r == names_content_length(name@),
{
    let lit: [u8; 14] = [99, 111, 110, 116, 101, 110, 116, 45, 108, 101, 110, 103, 116, 104];
    assert(lit@ =~= content_length_name());
    if name.len() != 14 {
        return false;
    }
    let mut i: usize = 0;
    while i < 14
        invariant
            i <= 14,
            name@.len() == 14,
            lit@ == content_length_name(),
            forall|k: int| 0 <= k < i ==> ascii_lower(#[trigger] name@[k]) == content_length_name()[k],
        decreases 14 - i,
    {
        let b = name[i];
        let low = if 65 <= b && b <= 90 { b + 32 } else { b };
        if low != lit[i] {
            return false;
        }
        i = i + 1;
    }
    true
}

/// The body length that `headers` declare.
pub fn content_length_of(headers: &Vec<(Vec<u8>, Vec<u8>)>) -> (r: usize)
    ensures
        r == content_length(pairs_view(headers@)),
{
    let ghost hv = pairs_view(headers@);
    let mut len: usize = 0;
    let mut i: usize = 0;
    while i < headers.len()
        invariant
            i <= headers@.len(),
            hv == pairs_view(headers@),
            len == content_length(hv.take(i as int)),
        decreases headers@.len() - i,
    {
        assert(hv.take(i + 1).drop_last() =~= hv.take(i as int));
        assert(hv.take(i + 1).last() == hv[i as int]);
        let (name, value) = &headers[i];
        if is_content_length(name.as_slice()) {
            len = parse_length(value.as_slice());
        }
        i = i + 1;
    }
    assert(hv.take(i as int) =~= hv);
    len
}

/// Whether `needle` occurs somewhere in `hay`.
pub open spec fn occurs_in(hay: Seq<u8>, needle: Seq<u8>) -> bool {
    exists|p: int| 0 <= p && p + needle.len() <= hay.len() && #[trigger] hay.subrange(p, p + needle.len()) == needle
}

/// A half-open range `[start, end)` of offsets into a request's head.
#[derive(Clone, Copy)]
pub struct Span {
    pub start: usize,
    pub end: usize,
}

pub open spec fn span_ok(head: Seq<u8>, s: Span) -> bool {
    s.start <= s.end <= head.len()
}

pub open spec fn span_bytes(head: Seq<u8>, s: Span) -> Seq<u8> {
    head.subrange(s.start as int, s.end as int)
}

/// Whether `needle` stands in `hay` at `p`.
fn matches_at(hay: &[u8], needle: &[u8], p: usize) -> (r: bool)
    requires
        p + needle@.len() <= hay@.len(),
    ensures
        r == (hay@.subrange(p as int, p + needle@.len()) == needle@),
{
    let hay_len = hay.len();
    assert(hay@.len() == hay_len);
    let mut i: usize = 0;
    while i < needle.len()
        invariant
            i <= needle@.len(),
            p + needle@.len() <= hay@.len(),
            hay@.len() <= usize::MAX,
            forall|k: int| 0 <= k < i ==> hay@[p + k] == needle@[k],
        decreases needle@.len() - i,
    {
        if hay[p + i] != needle[i] {
            assert(hay@.subrange(p as int, p + needle@.len())[i as int] != needle@[i as int]);
            return false;
        }
        i = i + 1;
    }
    assert(hay@.subrange(p as int, p + needle@.len()) =~= needle@);
    true
}

/// The first place where `needle` stands in `hay`.
fn locate(hay: &[u8], needle: &[u8]) -> (r: Span)
    requires
        occurs_in(hay@, needle@),
    ensures
        span_ok(hay@, r),
        span_bytes(hay@, r) == needle@,
{
    let n = needle.len();
    let mut p: usize = 0;
    while p <= hay.len() - n
        invariant
            n == needle@.len(),
            n <= hay@.len(),
            occurs_in(hay@, needle@),
            forall|q: int| 0 <= q < p ==> #[trigger] hay@.subrange(q, q + n) != needle@,
        decreases hay@.len() - n + 1 - p,
    {
        if matches_at(hay, needle, p) {
            return Span { start: p, end: p + n };
        }
        p = p + 1;
    }
    proof {
        let w = choose|w: int| 0 <= w && w + n <= hay@.len() && #[trigger] hay@.subrange(w, w + n) == needle@;
        assert(hay@.subrange(w, w + n) != needle@);
    }
    Span { start: 0, end: 0 }
}

/// A decoded request: the request line's parts and the headers, copied out of the head,
/// the head's own bytes, detached from the receive buffer, and the body once it is there.
pub struct Request {
    method: Span,
    path: Span,
    version: u8,
    headers: Vec<(Span, Span)>,
    data: bytes::Bytes,
    body: Option<bytes::Bytes>,
    body_len: usize,
}

pub struct RequestView {
    pub method: Seq<u8>,
    pub path: Seq<u8>,
    pub version: u8,
    pub headers: Seq<(Seq<u8>, Seq<u8>)>,
    pub head: Seq<u8>,
    pub body: Option<Seq<u8>>,
    pub body_len: nat,
}

impl View for Request {
    type V = RequestView;

    closed spec fn view(&self) -> RequestView {
        RequestView {
            method: span_bytes(frozen_bytes(self.data), self.method),
            path: span_bytes(frozen_bytes(self.data), self.path),
            version: self.version,
            headers: self.headers@.map_values(
                |p: (Span, Span)|
                    (span_bytes(frozen_bytes(self.data), p.0), span_bytes(frozen_bytes(self.data), p.1)),
            ),
            head: frozen_bytes(self.data),
            body: match self.body {
                Some(b) => Some(frozen_bytes(b)),
                None => None,
            },
            body_len: self.body_len as nat,
        }
    }
}

/// The request that a complete head `h` over the bytes `head` stands for, before its body.
pub open spec fn request_of(h: HeadView, head: Seq<u8>) -> RequestView {
    RequestView {
        method: h.method,
        path: h.path,
        version: h.version,
        headers: h.headers,
        head,
        body: None,
        body_len: content_length(h.headers),
    }
}

impl Request {
    /// Every range of the request lies within its head.
    pub closed spec fn wf(&self) -> bool {
        let hd = frozen_bytes(self.data);
        &&& span_ok(hd, self.method)
        &&& span_ok(hd, self.path)
        &&& forall|i: int|
            0 <= i < self.headers@.len() ==> span_ok(hd, (#[trigger] self.headers@[i]).0) && span_ok(
                hd,
                self.headers@[i].1,
            )
    }

    /// The bytes of the head that `s` covers.
    fn slice(&self, s: Span) -> (r: &[u8])
        requires
            span_ok(frozen_bytes(self.data), s),
        ensures
            r@ == span_bytes(frozen_bytes(self.data), s),
    {
        slice_subrange(frozen_slice(&self.data), s.start, s.end)
    }

    /// The method, e.g. `GET`.
    pub fn method(&self) -> (r: String)
        requires
            self.wf(),
        ensures
            r@ == lossy_text(self@.method),
    {
        text_of(self.slice(self.method))
    }

    /// The path, e.g. `/`.
    pub fn path(&self) -> (r: String)
        requires
            self.wf(),
        ensures
            r@ == lossy_text(self@.path),
    {
        text_of(self.slice(self.path))
    }

    /// The minor version, e.g. `1` for `HTTP/1.1`.
    pub fn version(&self) -> (r: u8)
        ensures
            r == self@.version,
    {
        self.version
    }

    /// A cursor over the headers, from the first.
    pub fn headers(&self) -> (r: RequestHeaders<'_>)
        requires
            self.wf(),
        ensures
            r.wf(),
            r.remaining() == self@.headers,
    {
        let r = RequestHeaders { req: self, pos: 0 };
        assert(r.remaining() =~= self@.headers);
        r
    }

    /// The headers in order, each name as text and each value as bytes.
    pub fn header_list(&self) -> (r: Vec<(String, Vec<u8>)>)
        requires
            self.wf(),
        ensures
            r@.len() == self@.headers.len(),
            forall|i: int|
                0 <= i < r@.len() ==> (#[trigger] r@[i]).0@ == lossy_text(self@.headers[i].0)
                    && r@[i].1@ == self@.headers[i].1,
    {
        let mut out: Vec<(String, Vec<u8>)> = Vec::new();
        let mut i: usize = 0;
        while i < self.headers.len()
            invariant
                i <= self.headers@.len(),
                out@.len() == i,
                self.wf(),
                forall|k: int|
                    0 <= k < i ==> (#[trigger] out@[k]).0@ == lossy_text(self@.headers[k].0)
                        && out@[k].1@ == self@.headers[k].1,
            decreases self.headers@.len() - i,
        {
            let (name, value) = self.headers[i];
            out.push((text_of(self.slice(name)), slice_to_vec(self.slice(value))));
            i = i + 1;
        }
        out
    }

    /// The body, where one came with the request.
    pub fn body(&self) -> (r: Option<&bytes::Bytes>)
        ensures
            match r {
                Some(b) => self@.body == Some(frozen_bytes(*b)),
                None => self@.body is None,
            },
    {
        self.body.as_ref()
    }

    /// The detached, immutable bytes of the head that every range of the request points into.
    pub fn head(&self) -> (r: &bytes::Bytes)
        ensures
            frozen_bytes(*r) == self@.head,
    {
        &self.data
    }

    /// The body length that the head declares.
    pub fn body_len(&self) -> (r: usize)
        ensures
            r == self@.body_len,
    {
        self.body_len
    }

    /// Attaches the body.
    pub fn set_body(&mut self, body: bytes::Bytes)
        ensures
            final(self).wf() == old(self).wf(),
            final(self)@ == (RequestView { body: Some(frozen_bytes(body)), ..old(self)@ }),
    {
        self.body = Some(body);
    }
}

/// A cursor over the headers of a request.
pub struct RequestHeaders<'req> {
    req: &'req Request,
    pos: usize,
}

impl<'req> RequestHeaders<'req> {
    /// The headers not yet handed out.
    pub closed spec fn remaining(&self) -> Seq<(Seq<u8>, Seq<u8>)> {
        self.req@.headers.skip(self.pos as int)
    }

    pub closed spec fn wf(&self) -> bool {
        self.pos <= self.req@.headers.len() && self.req.wf()
    }

    /// The next header, its name as text and its value as bytes.
    pub fn next(&mut self) -> (r: Option<(String, Vec<u8>)>)
        requires
            old(self).wf(),
        ensures
            final(self).wf(),
            old(self).remaining().len() == 0 ==> r is None && final(self).remaining().len() == 0,
            old(self).remaining().len() > 0 ==> {
                &&& r matches Some(p) && p.0@ == lossy_text(old(self).remaining()[0].0)
                    && p.1@ == old(self).remaining()[0].1
                &&& final(self).remaining() == old(self).remaining().drop_first()
            },
    {
        if self.pos >= self.req.headers.len() {
            return None;
        }
        let (name, value) = self.req.headers[self.pos];
        let item = (text_of(self.req.slice(name)), slice_to_vec(self.req.slice(value)));
        self.pos = self.pos + 1;
        assert(self.remaining() =~= old(self).remaining().drop_first());
        Some(item)
    }
}

/// Decodes the request head at the start of `buf[..n]`. A complete head is detached from
/// `buf`; otherwise `buf` is left as it was.
pub fn decode_prefix(buf: &mut bytes::BytesMut, n: usize) -> (r: Result<Option<Request>, Malformed>)
    requires
        n <= pending_bytes(*old(buf)).len(),
    ensures
        match head_scan(pending_bytes(*old(buf)).take(n as int)) {
            HeadScanView::Partial => r matches Ok(None) && pending_bytes(*final(buf)) == pending_bytes(*old(buf)),
            HeadScanView::Invalid(m) => r matches Err(e) && e == m && pending_bytes(*final(buf)) == pending_bytes(*old(buf)),
            HeadScanView::Complete(h) => {
                &&& h.amt <= n
                &&& r matches Ok(Some(req)) && req@ == request_of(h, pending_bytes(*old(buf)).take(h.amt as int))
                    && req.wf()
                &&& pending_bytes(*final(buf)) == pending_bytes(*old(buf)).skip(h.amt as int)
            },
        },
{
    let scan = scan_head(slice_subrange(buffer_slice(buf), 0, n));
    assert(pending_bytes(*buf).subrange(0, n as int) =~= pending_bytes(*buf).take(n as int));
    match scan {
        HeadScan::Partial => Ok(None),
        HeadScan::Invalid(e) => Err(reason_of(e)),
        HeadScan::Complete(h) => {
            let Head { amt, method, path, version, headers } = h;
            let body_len = content_length_of(&headers);
            assert(pending_bytes(*old(buf)).take(n as int).take(amt as int) =~= pending_bytes(*old(buf)).take(
                amt as int,
            ));
            let data = split_frozen(buf, amt);
            let hd = frozen_slice(&data);
            let m = locate(hd, method.as_slice());
            let p = locate(hd, path.as_slice());
            let mut spans: Vec<(Span, Span)> = Vec::with_capacity(headers.len());
            let mut i: usize = 0;
            while i < headers.len()
                invariant
                    i <= headers@.len(),
                    spans@.len() == i,
                    hd@ == frozen_bytes(data),
                    forall|k: int|
                        0 <= k < headers@.len() ==> occurs_in(hd@, (#[trigger] headers@[k]).0@)
                            && occurs_in(hd@, headers@[k].1@),
                    forall|k: int|
                        0 <= k < i ==> {
                            &&& span_ok(hd@, (#[trigger] spans@[k]).0)
                            &&& span_ok(hd@, spans@[k].1)
                            &&& span_bytes(hd@, spans@[k].0) == headers@[k].0@
                            &&& span_bytes(hd@, spans@[k].1) == headers@[k].1@
                        },
                decreases headers@.len() - i,
            {
                let (name, value) = &headers[i];
                spans.push((locate(hd, name.as_slice()), locate(hd, value.as_slice())));
                i = i + 1;
            }
            let req = Request { method: m, path: p, version, headers: spans, data, body: None, body_len };
            assert(req@.headers =~= pairs_view(headers@));
            Ok(Some(req))
        },
    }
}

/// Decodes the request head at the start of `buf`: `Ok(None)` while it is incomplete,
/// an error where it is malformed. A complete head is detached from `buf`.
pub fn decode(buf: &mut bytes::BytesMut) -> (r: Result<Option<Request>, Malformed>)
    ensures
        match head_scan(pending_bytes(*old(buf))) {
            HeadScanView::Partial => r matches Ok(None) && pending_bytes(*final(buf)) == pending_bytes(*old(buf)),
            HeadScanView::Invalid(m) => r matches Err(e) && e == m && pending_bytes(*final(buf)) == pending_bytes(*old(buf)),
            HeadScanView::Complete(h) => {
                &&& r matches Ok(Some(req)) && req@ == request_of(h, pending_bytes(*old(buf)).take(h.amt as int))
                    && req.wf()
                &&& pending_bytes(*final(buf)) == pending_bytes(*old(buf)).skip(h.amt as int)
            },
        },
{
    let n = buffer_len(buf);
    assert(pending_bytes(*buf).take(n as int) =~= pending_bytes(*buf));
    decode_prefix(buf, n)
}

} // verus!
