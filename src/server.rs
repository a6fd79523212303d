use vstd::prelude::*;
use vstd::string::StringSliceAdditionalSpecFns;
use crate::request::{
    content_length, decode_prefix, digits_value, is_digit, unsigned_digits, head_scan, names_content_length, parse_usize, request_of,
    HeadScanView, HeadView, Malformed, Request, RequestView,
};
use crate::response::{wire_of, Response, ResponseView};
use crate::wire::{has_terminator_at, terminator_at};
use crate::buffer::{
    buffer_extend, buffer_len, buffer_slice, buffer_with_capacity, frozen_bytes, pending_bytes,
    prepare_read, split_frozen, POOL_SIZE,
};

verus! {

/// Whether the bytes up to `j` settle the request head: a terminator ends at `j` and the
/// parser either accepts or refuses `s[..j]`.
pub open spec fn decides_at(s: Seq<u8>, j: int) -> bool {
    terminator_at(s, j) && !(head_scan(s.take(j)) is Partial)
}

/// The first position from `from` on at which the head is settled.
pub open spec fn first_decision(s: Seq<u8>, from: int) -> Option<int>
    decreases s.len() + 1 - from,
{
    if from < 0 || from > s.len() {
        None
    } else if decides_at(s, from) {
        Some(from)
    } else {
        first_decision(s, from + 1)
    }
}

/// Where an exchange stands after the bytes `s` have arrived.
pub enum Exchange {
    Pending,
    Malformed(Malformed),
    Ready(RequestView),
}

/// A request with the body `b` attached, where it declares one.
pub open spec fn with_body(r: RequestView, b: Seq<u8>) -> RequestView {
    if r.body_len == 0 {
        r
    } else {
        RequestView { body: Some(b), ..r }
    }
}

/// What the bytes `s` of a connection amount to: still waiting, a malformed head, or a
/// request whose head and declared body have both arrived.
pub open spec fn exchange(s: Seq<u8>) -> Exchange {
    match first_decision(s, 0) {
        None => Exchange::Pending,
        Some(j) => match head_scan(s.take(j)) {
            HeadScanView::Complete(h) => {
                let bl = content_length(h.headers);
                if h.amt + bl <= s.len() {
                    Exchange::Ready(
                        with_body(request_of(h, s.take(h.amt as int)), s.subrange(h.amt as int, (h.amt + bl) as int)),
                    )
                } else {
                    Exchange::Pending
                }
            },
            HeadScanView::Invalid(m) => Exchange::Malformed(m),
            HeadScanView::Partial => Exchange::Pending,
        },
    }
}

proof fn lemma_decides_prefix(s1: Seq<u8>, s2: Seq<u8>, k: int)
    requires
        s1.is_prefix_of(s2),
        0 <= k <= s1.len(),
    ensures
        decides_at(s1, k) == decides_at(s2, k),
{
    assert(s1.take(k) =~= s2.take(k));
    if k >= 4 {
        assert(s1[k - 1] == s2[k - 1]);
        assert(s1[k - 2] == s2[k - 2]);
        assert(s1[k - 3] == s2[k - 3]);
        assert(s1[k - 4] == s2[k - 4]);
    }
}

proof fn lemma_first_decision(s: Seq<u8>, from: int, j: int)
    requires
        0 <= from <= j,
        decides_at(s, j),
        forall|k: int| from <= k < j ==> !decides_at(s, k),
    ensures
        first_decision(s, from) == Some(j),
    decreases j - from,
{
    if from < j {
        lemma_first_decision(s, from + 1, j);
    }
}

proof fn lemma_no_decision(s: Seq<u8>, from: int)
    requires
        0 <= from,
        forall|k: int| from <= k <= s.len() ==> !decides_at(s, k),
    ensures
        first_decision(s, from) is None,
    decreases s.len() + 1 - from,
{
    if from <= s.len() {
        lemma_no_decision(s, from + 1);
    }
}

proof fn lemma_decision_found(s: Seq<u8>, from: int)
    requires
        0 <= from,
        first_decision(s, from) is Some,
    ensures
        from <= first_decision(s, from)->0 <= s.len(),
        decides_at(s, first_decision(s, from)->0),
        forall|k: int| from <= k < first_decision(s, from)->0 ==> !decides_at(s, k),
    decreases s.len() + 1 - from,
{
    if from <= s.len() && !decides_at(s, from) {
        lemma_decision_found(s, from + 1);
    }
}

proof fn lemma_decision_stable(s1: Seq<u8>, s2: Seq<u8>)
    requires
        s1.is_prefix_of(s2),
        first_decision(s1, 0) is Some,
    ensures
        first_decision(s2, 0) == first_decision(s1, 0),
{
    lemma_decision_found(s1, 0);
    let j = first_decision(s1, 0)->0;
    assert forall|k: int| 0 <= k < j implies !decides_at(s2, k) by {
        lemma_decides_prefix(s1, s2, k);
    }
    lemma_decides_prefix(s1, s2, j);
    lemma_first_decision(s2, 0, j);
}

/// Once the bytes received settle the exchange, more bytes change nothing: a request
/// delivered in any number of reads decodes as it does when it comes in one.
pub proof fn lemma_split_delivery(s1: Seq<u8>, s2: Seq<u8>)
    requires
        s1.is_prefix_of(s2),
        !(exchange(s1) is Pending),
    ensures
        exchange(s2) == exchange(s1),
{
    lemma_decision_stable(s1, s2);
    lemma_decision_found(s1, 0);
    let j = first_decision(s1, 0)->0;
    assert(s1.take(j) =~= s2.take(j));
    if let HeadScanView::Complete(h) = head_scan(s1.take(j)) {
        let bl = content_length(h.headers);
        assert(s1.take(h.amt as int) =~= s2.take(h.amt as int));
        assert(s1.subrange(h.amt as int, (h.amt + bl) as int) =~= s2.subrange(h.amt as int, (h.amt + bl) as int));
    }
}

/// The bytes of a sequence of reads, in order.
pub open spec fn joined(reads: Seq<Seq<u8>>) -> Seq<u8>
    decreases reads.len(),
{
    if reads.len() == 0 {
        Seq::empty()
    } else {
        joined(reads.drop_last()) + reads.last()
    }
}

proof fn lemma_joined_prefix(reads: Seq<Seq<u8>>, i: int)
    requires
        0 <= i <= reads.len(),
    ensures
        joined(reads.take(i)).is_prefix_of(joined(reads)),
    decreases reads.len(),
{
    if i < reads.len() {
        let rest = reads.drop_last();
        assert(rest.take(i) =~= reads.take(i));
        lemma_joined_prefix(rest, i);
    } else {
        assert(reads.take(i) =~= reads);
    }
}

/// However a request is cut into reads, the exchange that the first `i` reads settle is
/// the one that all of them, or a single read of the same bytes, settles.
pub proof fn lemma_reads_settle_alike(reads: Seq<Seq<u8>>, i: int)
    requires
        0 <= i <= reads.len(),
        !(exchange(joined(reads.take(i))) is Pending),
    ensures
        exchange(joined(reads)) == exchange(joined(reads.take(i))),
        exchange(joined(seq![joined(reads)])) == exchange(joined(reads.take(i))),
{
    lemma_joined_prefix(reads, i);
    lemma_split_delivery(joined(reads.take(i)), joined(reads));
    let one = seq![joined(reads)];
    assert(one.drop_last() =~= Seq::<Seq<u8>>::empty());
    assert(one.last() == joined(reads));
    assert(joined(Seq::<Seq<u8>>::empty()) == Seq::<u8>::empty());
    assert(joined(one) =~= joined(reads));
}

/// Headers without a `Content-Length` declare no body.
pub proof fn lemma_no_length_header(h: Seq<(Seq<u8>, Seq<u8>)>)
    requires
        forall|i: int| 0 <= i < h.len() ==> !names_content_length(#[trigger] h[i].0),
    ensures
        content_length(h) == 0,
    decreases h.len(),
{
    if h.len() > 0 {
        assert(!names_content_length(h[h.len() - 1].0));
        lemma_no_length_header(h.drop_last());
    }
}

/// Headers whose every `Content-Length` reads `0` declare no body.
pub proof fn lemma_zero_length_header(h: Seq<(Seq<u8>, Seq<u8>)>)
    requires
        forall|i: int| 0 <= i < h.len() && names_content_length(#[trigger] h[i].0) ==> h[i].1 == seq![48u8],
    ensures
        content_length(h) == 0,
    decreases h.len(),
{
    if h.len() > 0 {
        if names_content_length(h[h.len() - 1].0) {
            let v = h[h.len() - 1].1;
            assert(v == seq![48u8]);
            assert(v.drop_last() =~= Seq::<u8>::empty());
            assert(v.last() == 48u8);
            assert(digits_value(Seq::<u8>::empty()) == 0);
            assert(digits_value(v) == 0);
            assert(unsigned_digits(v) == v);
            assert(forall|i: int| 0 <= i < v.len() ==> is_digit(#[trigger] v[i]));
            assert(parse_usize(v) == Some(0nat));
        } else {
            lemma_zero_length_header(h.drop_last());
        }
    }
}

/// A head without a `Content-Length` header is dispatched as soon as it is complete, with
/// no body.
pub proof fn lemma_no_length_dispatches(s: Seq<u8>, j: int, h: HeadView)
    requires
        first_decision(s, 0) == Some(j),
        head_scan(s.take(j)) == HeadScanView::Complete(h),
        h.amt <= j,
        forall|i: int| 0 <= i < h.headers.len() ==> !names_content_length(#[trigger] h.headers[i].0),
    ensures
        exchange(s) == Exchange::Ready(request_of(h, s.take(h.amt as int))),
        request_of(h, s.take(h.amt as int)).body is None,
{
    lemma_decision_found(s, 0);
    lemma_no_length_header(h.headers);
}

/// A head whose `Content-Length` reads `0` is dispatched as soon as it is complete, with no
/// body.
pub proof fn lemma_zero_length_dispatches(s: Seq<u8>, j: int, h: HeadView)
    requires
        first_decision(s, 0) == Some(j),
        head_scan(s.take(j)) == HeadScanView::Complete(h),
        h.amt <= j,
        forall|i: int|
            0 <= i < h.headers.len() && names_content_length(#[trigger] h.headers[i].0)
                ==> h.headers[i].1 == seq![48u8],
    ensures
        exchange(s) == Exchange::Ready(request_of(h, s.take(h.amt as int))),
        request_of(h, s.take(h.amt as int)).body is None,
{
    lemma_decision_found(s, 0);
    lemma_zero_length_header(h.headers);
}

/// What the connection asks of its driver after a read.
pub enum Step {
    ReadMore,
    Dispatch(Request),
    Close,
    Fail(Malformed),
}

/// The receiving side of one connection: the bytes received and not yet detached, and the
/// decoded head while its body is still arriving.
pub struct Connection {
    buf: bytes::BytesMut,
    pending: Option<Request>,
    stream: Ghost<Seq<u8>>,
    head_end: Ghost<int>,
    head: Ghost<HeadView>,
}

impl Connection {
    /// Every byte received so far.
    pub closed spec fn stream(&self) -> Seq<u8> {
        self.stream@
    }

    pub closed spec fn wf(&self) -> bool {
        let s = self.stream@;
        match self.pending {
            None => {
                &&& pending_bytes(self.buf) == s
                &&& forall|k: int| 0 <= k <= s.len() ==> !decides_at(s, k)
            },
            Some(req) => {
                let h = self.head@;
                let j = self.head_end@;
                &&& first_decision(s, 0) == Some(j)
                &&& head_scan(s.take(j)) == HeadScanView::Complete(h)
                &&& h.amt <= j <= s.len()
                &&& req@ == request_of(h, s.take(h.amt as int))
                &&& req.wf()
                &&& pending_bytes(self.buf) == s.skip(h.amt as int)
                &&& pending_bytes(self.buf).len() < content_length(h.headers)
            },
        }
    }

    /// A connection on which nothing has arrived yet.
    pub fn new() -> (c: Self)
        ensures
            c.wf(),
            c.stream() == Seq::<u8>::empty(),
    {
        let c = Connection {
            buf: buffer_with_capacity(POOL_SIZE),
            pending: None,
            stream: Ghost(Seq::empty()),
            head_end: Ghost(0),
            head: Ghost(arbitrary()),
        };
        assert(pending_bytes(c.buf) =~= c.stream@);
        assert(!decides_at(c.stream@, 0));
        c
    }

    /// Hands the head over once its declared body is complete, else waits for more.
    fn finish(&mut self, req: Request) -> (r: Step)
        requires
            old(self).pending is None,
            first_decision(old(self).stream@, 0) == Some(old(self).head_end@),
            head_scan(old(self).stream@.take(old(self).head_end@)) == HeadScanView::Complete(
                old(self).head@,
            ),
            old(self).head@.amt <= old(self).head_end@ <= old(self).stream@.len(),
            req@ == request_of(old(self).head@, old(self).stream@.take(old(self).head@.amt as int)),
            req.wf(),
            pending_bytes(old(self).buf) == old(self).stream@.skip(old(self).head@.amt as int),
        ensures
            final(self).stream() == old(self).stream(),
            match exchange(old(self).stream()) {
                Exchange::Pending => r is ReadMore && final(self).wf(),
                Exchange::Malformed(_) => false,
                Exchange::Ready(q) => r matches Step::Dispatch(d) && d@ == q && d.wf(),
            },
    {
        let ghost s = self.stream@;
        let ghost h = self.head@;
        let bl = req.body_len();
        if buffer_len(&self.buf) < bl {
            self.pending = Some(req);
            return Step::ReadMore;
        }
        if bl == 0 {
            return Step::Dispatch(req);
        }
        let body = split_frozen(&mut self.buf, bl);
        assert(frozen_bytes(body) =~= s.subrange(h.amt as int, (h.amt + bl) as int));
        let mut req = req;
        req.set_body(body);
        Step::Dispatch(req)
    }

    /// Takes in the bytes of one read; an empty read means that the peer closed.
    pub fn on_read(&mut self, chunk: &[u8]) -> (r: Step)
        requires
            old(self).wf(),
            old(self).stream().len() + chunk@.len() + POOL_SIZE <= isize::MAX,
            exchange(old(self).stream()) is Pending,
        ensures
            chunk@.len() == 0 ==> r is Close && final(self).stream() == old(self).stream()
                && final(self).wf(),
            chunk@.len() > 0 ==> {
                &&& final(self).stream() == old(self).stream() + chunk@
                &&& match exchange(final(self).stream()) {
                    Exchange::Pending => r is ReadMore && final(self).wf(),
                    Exchange::Malformed(m) => r matches Step::Fail(e) && e == m,
                    Exchange::Ready(q) => r matches Step::Dispatch(d) && d@ == q && d.wf(),
                }
            },
    {
        if chunk.len() == 0 {
            return Step::Close;
        }
        let ghost s0 = self.stream@;
        let old_len = buffer_len(&self.buf);
        prepare_read(&mut self.buf);
        buffer_extend(&mut self.buf, chunk);
        self.stream = Ghost(s0 + chunk@);
        let ghost s = self.stream@;
        assert(s0.is_prefix_of(s));
        match self.pending.take() {
            Some(req) => {
                proof {
                    lemma_decision_stable(s0, s);
                    assert(s0.take(self.head_end@) =~= s.take(self.head_end@));
                    assert(s0.take(self.head@.amt as int) =~= s.take(self.head@.amt as int));
                    assert(pending_bytes(self.buf) =~= s.skip(self.head@.amt as int));
                }
                self.finish(req)
            },
            None => {
                assert(pending_bytes(self.buf).len() == old_len + chunk@.len());
                // A head terminator that ends at `e + 1` is the next one to look for: those ending
                // within the bytes received before were looked at then.
                let mut e: usize = if old_len < 3 { 3 } else { old_len };
                proof {
                    assert forall|k: int| 0 <= k <= e implies !decides_at(s, k) by {
                        if k <= old_len {
                            lemma_decides_prefix(s0, s, k);
                        }
                    }
                }
                while e < buffer_len(&self.buf)
                    invariant
                        self.pending is None,
                        chunk@.len() > 0,
                        s == old(self).stream() + chunk@,
                        self.stream@ == s,
                        pending_bytes(self.buf) == s,
                        s0.is_prefix_of(s),
                        s0.len() == old_len,
                        forall|k: int| 0 <= k <= s0.len() ==> !decides_at(s0, k),
                        forall|k: int| 0 <= k <= e ==> !decides_at(s, k),
                    decreases pending_bytes(self.buf).len() - e,
                {
                    let j = e + 1;
                    if has_terminator_at(buffer_slice(&self.buf), j) {
                        assert(pending_bytes(self.buf).take(j as int) == s.take(j as int));
                        match decode_prefix(&mut self.buf, j) {
                            Ok(None) => {},
                            Err(reason) => {
                                proof {
                                    lemma_first_decision(s, 0, j as int);
                                }
                                return Step::Fail(reason);
                            },
                            Ok(Some(req)) => {
                                proof {
                                    lemma_first_decision(s, 0, j as int);
                                    if let HeadScanView::Complete(h) = head_scan(s.take(j as int)) {
                                        self.head = Ghost(h);
                                    }
                                    self.head_end = Ghost(j as int);
                                }
                                return self.finish(req);
                            },
                        }
                    }
                    e = e + 1;
                }
                proof {
                    assert forall|k: int| 0 <= k <= s.len() implies !decides_at(s, k) by {
                        if k <= old_len {
                            lemma_decides_prefix(s0, s, k);
                        }
                    }
                    lemma_no_decision(s, 0);
                }
                Step::ReadMore
            },
        }
    }
}

/// `Internal Server Error`
pub open spec fn internal_error_reason() -> Seq<u8> {
    seq![73u8, 110, 116, 101, 114, 110, 97, 108, 32, 83, 101, 114, 118, 101, 114, 32, 69, 114, 114, 111, 114]
}

/// The response that stands in for one whose service failed with the message `msg`.
pub fn internal_error_resp(msg: &str) -> (r: Response)
    ensures
        r@ == (ResponseView {
            status: Some((500u32, internal_error_reason())),
            headers: Seq::empty(),
            body: msg.spec_bytes(),
        }),
{
    let mut resp = Response::new();
    let reason: [u8; 21] = [73, 110, 116, 101, 114, 110, 97, 108, 32, 83, 101, 114, 118, 101, 114, 32, 69, 114, 114, 111, 114];
    assert(reason@ =~= internal_error_reason());
    resp.status_code_bytes(500, &reason);
    resp.body(msg);
    assert(resp@.headers =~= Seq::<(Seq<u8>, Seq<u8>)>::empty());
    resp
}

/// The bytes to send once the service has run: its response, or, where it failed with the
/// message `failure`, a `500` whose body is that message.
pub fn response_bytes(resp: &Response, failure: Option<&str>, date: &[u8]) -> (r: Vec<u8>)
    ensures
        match failure {
            None => r@ == wire_of(resp@, date@),
            Some(m) => r@ == wire_of(
                ResponseView {
                    status: Some((500u32, internal_error_reason())),
                    headers: Seq::empty(),
                    body: m.spec_bytes(),
                },
                date@,
            ),
        },
{
    match failure {
        None => resp.encode(date),
        Some(m) => internal_error_resp(m).encode(date),
    }
}

/// How many writes in a row may accept no byte before sending gives up.
pub const MAX_IDLE_WRITES: u32 = 64;

/// What the writer of a response does next.
pub enum SendStep {
    More,
    Done,
    Stalled,
}

/// Progress of writing one response of `total` bytes: how many are sent, and how many
/// writes in a row have accepted none.
pub struct Sending {
    total: usize,
    sent: usize,
    idle: u32,
}

pub struct SendingView {
    pub total: nat,
    pub sent: nat,
    pub idle: nat,
}

impl View for Sending {
    type V = SendingView;

    closed spec fn view(&self) -> SendingView {
        SendingView { total: self.total as nat, sent: self.sent as nat, idle: self.idle as nat }
    }
}

impl Sending {
    /// Nothing of `total` bytes sent yet.
    pub fn new(total: usize) -> (r: Self)
        ensures
            r@ == (SendingView { total: total as nat, sent: 0, idle: 0 }),
    {
        Sending { total, sent: 0, idle: 0 }
    }

    /// The offset of the first byte not yet sent.
    pub fn sent(&self) -> (r: usize)
        ensures
            r == self@.sent,
    {
        self.sent
    }

    /// Records a write that accepted `n` bytes. A write that accepts none is a short write
    /// and is retried, up to `MAX_IDLE_WRITES` in a row.
    pub fn on_write(&mut self, n: usize) -> (r: SendStep)
        requires
            old(self)@.sent + n <= old(self)@.total,
            old(self)@.idle < MAX_IDLE_WRITES,
        ensures
            final(self)@.total == old(self)@.total,
            n > 0 ==> final(self)@.sent == old(self)@.sent + n && final(self)@.idle == 0,
            n == 0 ==> final(self)@.sent == old(self)@.sent && final(self)@.idle == old(self)@.idle + 1,
            r is Done <==> final(self)@.sent == final(self)@.total,
            r is Stalled <==> final(self)@.sent < final(self)@.total && final(self)@.idle == MAX_IDLE_WRITES,
    {
        if n > 0 {
            self.sent = self.sent + n;
            self.idle = 0;
        } else {
            self.idle = self.idle + 1;
        }
        if self.sent == self.total {
            SendStep::Done
        } else if self.idle == MAX_IDLE_WRITES {
            SendStep::Stalled
        } else {
            SendStep::More
        }
    }
}

/// A server that hands each connection a clone of one service.
pub struct HttpServer<T>(pub T);

} // verus!
