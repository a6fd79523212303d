use vstd::prelude::*;
use vstd::slice::slice_to_vec;
use vstd::string::StringSliceAdditionalSpecFns;
use crate::wire::{crlf, digits_of, push_crlf, push_decimal};

verus! {

/// The status line's code and reason; `Default` stands for `200 OK`.
pub enum StatusMsg {
    Default,
    Custom(u32, Vec<u8>),
}

/// A response under construction: status, headers in the order added, and body.
pub struct Response {
    headers: Vec<(Vec<u8>, Vec<u8>)>,
    response: Vec<u8>,
    status_msg: StatusMsg,
}

/// What a response holds: an explicit status, if one was set, the headers and the body.
pub struct ResponseView {
    pub status: Option<(u32, Seq<u8>)>,
    pub headers: Seq<(Seq<u8>, Seq<u8>)>,
    pub body: Seq<u8>,
}

impl View for Response {
    type V = ResponseView;

    closed spec fn view(&self) -> ResponseView {
        ResponseView {
            status: match self.status_msg {
                StatusMsg::Default => None,
                StatusMsg::Custom(c, m) => Some((c, m@)),
            },
            headers: self.headers@.map_values(|p: (Vec<u8>, Vec<u8>)| (p.0@, p.1@)),
            body: self.response@,
        }
    }
}

/// `HTTP/1.1 `
pub open spec fn version_prefix() -> Seq<u8> {
    seq![72u8, 84, 84, 80, 47, 49, 46, 49, 32]
}

/// `200 OK`
pub open spec fn default_status() -> Seq<u8> {
    seq![50u8, 48, 48, 32, 79, 75]
}

/// `CR LF Server: Example CR LF Content-Length: `
pub open spec fn server_and_length() -> Seq<u8> {
    seq![
        13u8, 10, 83, 101, 114, 118, 101, 114, 58, 32, 69, 120, 97, 109, 112, 108, 101, 13, 10,
        67, 111, 110, 116, 101, 110, 116, 45, 76, 101, 110, 103, 116, 104, 58, 32,
    ]
}

/// `CR LF Date: `
pub open spec fn date_prefix() -> Seq<u8> {
    seq![13u8, 10, 68, 97, 116, 101, 58, 32]
}

/// `: `
pub open spec fn name_separator() -> Seq<u8> {
    seq![58u8, 32]
}

/// The code and reason of the status line.
pub open spec fn status_text(status: Option<(u32, Seq<u8>)>) -> Seq<u8> {
    match status {
        None => default_status(),
        Some((c, m)) => digits_of(c as nat).push(32u8) + m,
    }
}

/// The header lines `Name: Value CR LF`, in order.
pub open spec fn header_lines(h: Seq<(Seq<u8>, Seq<u8>)>) -> Seq<u8>
    decreases h.len(),
{
    if h.len() == 0 {
        Seq::empty()
    } else {
        header_lines(h.drop_last()) + h.last().0 + name_separator() + h.last().1 + crlf()
    }
}

/// The wire form of everything up to the body.
pub open spec fn head_bytes(r: ResponseView, date: Seq<u8>) -> Seq<u8> {
    version_prefix() + status_text(r.status) + server_and_length() + digits_of(r.body.len())
        + date_prefix() + date + crlf() + header_lines(r.headers) + crlf()
}

/// The wire form of a response whose `Date` header reads `date`.
pub open spec fn wire_of(r: ResponseView, date: Seq<u8>) -> Seq<u8> {
    head_bytes(r, date) + r.body
}

/// A response's wire bytes open with its status line, carry a `Content-Length` equal to
/// the body's length in bytes, and end with exactly the body.
pub proof fn lemma_wire_frame(r: ResponseView, date: Seq<u8>)
    ensures
        ({
            let w = wire_of(r, date);
            let k: int = (version_prefix().len() + status_text(r.status).len()) as int;
            &&& w.take(k + 2) == version_prefix() + status_text(r.status) + crlf()
            &&& w.subrange(k, k + server_and_length().len() + digits_of(r.body.len()).len() + 2)
                == server_and_length() + digits_of(r.body.len()) + crlf()
            &&& w.skip(w.len() - r.body.len()) == r.body
        }),
{
    let w = wire_of(r, date);
    let k: int = (version_prefix().len() + status_text(r.status).len()) as int;
    assert(w.take(k + 2) =~= version_prefix() + status_text(r.status) + crlf());
    assert(w.subrange(k, k + server_and_length().len() + digits_of(r.body.len()).len() + 2)
        =~= server_and_length() + digits_of(r.body.len()) + crlf());
    assert(w.skip(w.len() - r.body.len()) =~= r.body);
}

impl Response {
    /// A response with status `200 OK`, no headers and an empty body.
    pub fn new() -> (r: Self)
        ensures
            r@.status is None,
            r@.headers.len() == 0,
            r@.body.len() == 0,
    {
        Response {
            headers: Vec::with_capacity(256),
            response: Vec::with_capacity(4096),
            status_msg: StatusMsg::Default,
        }
    }

    /// Sets the status code and reason.
    pub fn status_code(&mut self, code: u32, msg: &str)
        ensures
            final(self)@ == (ResponseView { status: Some((code, msg.spec_bytes())), ..old(self)@ }),
    {
        self.status_code_bytes(code, msg.as_bytes());
    }

    /// Sets the status code and a reason given as bytes.
    pub fn status_code_bytes(&mut self, code: u32, msg: &[u8])
        ensures
            final(self)@ == (ResponseView { status: Some((code, msg@)), ..old(self)@ }),
    {
        self.status_msg = StatusMsg::Custom(code, slice_to_vec(msg));
    }

    /// Appends the header `name: val`.
    pub fn header(&mut self, name: &str, val: &str)
        ensures
            final(self)@ == (ResponseView {
                headers: old(self)@.headers.push((name.spec_bytes(), val.spec_bytes())),
                ..old(self)@
            }),
    {
        let n = slice_to_vec(name.as_bytes());
        let v = slice_to_vec(val.as_bytes());
        self.headers.push((n, v));
        assert(self@.headers =~= old(self)@.headers.push((name.spec_bytes(), val.spec_bytes())));
    }

    /// Replaces the body with the bytes of `s`.
    pub fn body(&mut self, s: &str)
        ensures
            final(self)@ == (ResponseView { body: s.spec_bytes(), ..old(self)@ }),
    {
        self.body_bytes(s.as_bytes());
    }

    /// Replaces the body with `s`.
    pub fn body_bytes(&mut self, s: &[u8])
        ensures
            final(self)@ == (ResponseView { body: s@, ..old(self)@ }),
    {
        self.response.clear();
        self.response.extend_from_slice(s);
        assert(self.response@ =~= s@);
    }

    /// The wire bytes of this response, with `date` as the `Date` header's value.
    pub fn encode(&self, date: &[u8]) -> (r: Vec<u8>)
        ensures
            r@ == wire_of(self@, date@),
    {
        let mut buf: Vec<u8> = Vec::with_capacity(4096);
        let lit_version: [u8; 9] = [72, 84, 84, 80, 47, 49, 46, 49, 32];
        buf.extend_from_slice(&lit_version);
        match &self.status_msg {
            StatusMsg::Default => {
                let lit_ok: [u8; 6] = [50, 48, 48, 32, 79, 75];
                buf.extend_from_slice(&lit_ok);
            },
            StatusMsg::Custom(c, m) => {
                push_decimal(&mut buf, *c as u64);
                buf.push(32);
                buf.extend_from_slice(m.as_slice());
            },
        }
        assert(buf@ =~= version_prefix() + status_text(self@.status));
        let lit_server: [u8; 35] = [
            13, 10, 83, 101, 114, 118, 101, 114, 58, 32, 69, 120, 97, 109, 112, 108, 101, 13, 10,
            67, 111, 110, 116, 101, 110, 116, 45, 76, 101, 110, 103, 116, 104, 58, 32,
        ];
        buf.extend_from_slice(&lit_server);
        push_decimal(&mut buf, self.response.len() as u64);
        let lit_date: [u8; 8] = [13, 10, 68, 97, 116, 101, 58, 32];
        buf.extend_from_slice(&lit_date);
        buf.extend_from_slice(date);
        push_crlf(&mut buf);
        let ghost before_headers = buf@;
        assert(before_headers =~= version_prefix() + status_text(self@.status) + server_and_length()
            + digits_of(self@.body.len()) + date_prefix() + date@ + crlf());
        let mut i: usize = 0;
        while i < self.headers.len()
            invariant
                i <= self.headers@.len(),
                buf@ == before_headers + header_lines(self@.headers.take(i as int)),
            decreases self.headers@.len() - i,
        {
            let ghost prev = buf@;
            let (name, value) = &self.headers[i];
            buf.extend_from_slice(name.as_slice());
            let lit_sep: [u8; 2] = [58, 32];
            buf.extend_from_slice(&lit_sep);
            buf.extend_from_slice(value.as_slice());
            push_crlf(&mut buf);
            proof {
                let h = self@.headers;
                assert(h.take(i + 1).drop_last() =~= h.take(i as int));
                assert(h.take(i + 1).last() == h[i as int]);
                assert(buf@ =~= prev + h[i as int].0 + name_separator() + h[i as int].1 + crlf());
            }
            i = i + 1;
        }
        push_crlf(&mut buf);
        buf.extend_from_slice(self.response.as_slice());
        assert(self@.headers.take(self@.headers.len() as int) =~= self@.headers);
        assert(buf@ =~= wire_of(self@, date@));
        buf
    }
}

} // verus!
