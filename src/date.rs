use vstd::prelude::*;
use vstd::slice::slice_to_vec;

verus! {

/// The first millisecond, counted from the Unix epoch, whose timestamp the cache formats:
/// a day after the start of year 0, so that any local offset stays within the format's years.
pub const EARLIEST_MS: i64 = -62167132800000;

/// The last millisecond whose timestamp the cache formats: a day before the end of year 9999.
pub const LATEST_MS: i64 = 253402214399999;

/// Relies on std's SystemTime::now, chrono's `From<SystemTime>` for `DateTime<Utc>`, which
/// also takes clocks set before 1970, and DateTime::timestamp_millis: the current time in
/// milliseconds since the Unix epoch. Nothing is known of its value.
#[verifier::external_body]
fn clock_millis() -> (r: i64) {
    chrono::DateTime::<chrono::Utc>::from(std::time::SystemTime::now()).timestamp_millis()
}

/// Relies on chrono's DateTime::from_timestamp_millis, with_timezone(&Local) and to_rfc2822:
/// the instant `ms` as local RFC 2822 text. from_timestamp_millis accepts every such `ms`, and
/// to_rfc2822 panics only outside the years 0 to 9999, which `requires` keeps out.
#[verifier::external_body]
fn rfc2822_at(ms: i64) -> (r: String)
    requires
        EARLIEST_MS <= ms <= LATEST_MS,
{
    chrono::DateTime::from_timestamp_millis(ms).unwrap_or_default().with_timezone(&chrono::Local).to_rfc2822()
}

/// A handle on the current timestamp as it goes into a `Date` header.
pub struct Now;

/// The current timestamp's handle.
pub fn now() -> (r: Now) {
    Now
}

/// The formatted timestamp of one execution context and the instant, in milliseconds, until
/// which it is served unchanged.
pub struct CachedNow {
    bytes: Vec<u8>,
    next_update: Option<i64>,
}

pub struct ClockView {
    pub text: Seq<u8>,
    pub next_update: Option<int>,
}

impl View for CachedNow {
    type V = ClockView;

    closed spec fn view(&self) -> ClockView {
        ClockView {
            text: self.bytes@,
            next_update: match self.next_update {
                Some(n) => Some(n as int),
                None => None,
            },
        }
    }
}

/// Whether the cached text must be formatted anew at the instant `t`.
pub open spec fn is_stale(c: ClockView, t: int) -> bool {
    match c.next_update {
        None => true,
        Some(n) => t > n,
    }
}

/// One second after `t`, held within `i64`.
pub open spec fn expiry_after(t: int) -> int {
    if t + 1000 <= i64::MAX {
        t + 1000
    } else {
        i64::MAX as int
    }
}

/// The cache after a read of the clock at `t`, where `fresh` is the text formatted for `t`.
pub open spec fn clock_after(c: ClockView, t: int, fresh: Seq<u8>) -> ClockView {
    if is_stale(c, t) {
        ClockView { text: fresh, next_update: Some(expiry_after(t)) }
    } else {
        c
    }
}

impl CachedNow {
    /// An empty cache, stale at every instant.
    pub fn new() -> (r: Self)
        ensures
            r@.text.len() == 0,
            r@.next_update is None,
    {
        CachedNow { bytes: Vec::with_capacity(128), next_update: None }
    }

    /// Whether the text must be formatted anew at `now_ms`.
    pub fn needs_update(&self, now_ms: i64) -> (r: bool)
        ensures
            r == is_stale(self@, now_ms as int),
    {
        match self.next_update {
            None => true,
            Some(n) => now_ms > n,
        }
    }

    /// Stores `text`, formatted at `now_ms`, to be served for one second.
    pub fn update(&mut self, now_ms: i64, text: &[u8])
        ensures
            final(self)@ == (ClockView { text: text@, next_update: Some(expiry_after(now_ms as int)) }),
    {
        self.bytes.clear();
        self.bytes.extend_from_slice(text);
        let next = if now_ms <= i64::MAX - 1000 { now_ms + 1000 } else { i64::MAX };
        self.next_update = Some(next);
        assert(self.bytes@ =~= text@);
    }

    /// Reads the clock at `now_ms`: where the text is stale, `fresh`, formatted for
    /// `now_ms`, replaces it for one second; otherwise nothing changes.
    pub fn observe(&mut self, now_ms: i64, fresh: &[u8])
        ensures
            final(self)@ == clock_after(old(self)@, now_ms as int, fresh@),
    {
        if self.needs_update(now_ms) {
            self.update(now_ms, fresh);
        }
    }

    /// The text served, in the cache's own storage.
    pub fn text(&self) -> (r: &[u8])
        ensures
            r@ == self@.text,
    {
        self.bytes.as_slice()
    }

    /// Reads the clock and brings the text up to date: it is formatted again only when a
    /// second has passed since it last was. Outside the years 0 to 9999 the text is empty.
    pub fn current(&mut self)
        ensures
            exists|t: int| #[trigger] clock_after(old(self)@, t, final(self)@.text) == final(self)@,
    {
        let t = clock_millis();
        let fresh: Vec<u8> = if self.needs_update(t) && EARLIEST_MS <= t && t <= LATEST_MS {
            slice_to_vec(rfc2822_at(t).as_str().as_bytes())
        } else {
            Vec::new()
        };
        self.observe(t, fresh.as_slice());
        assert(clock_after(old(self)@, t as int, self@.text) == self@);
    }
}

impl Now {
    /// Brings the calling context's cached timestamp up to date; `cache.text()` then holds
    /// the text for the `Date` header.
    pub fn refresh(&self, cache: &mut CachedNow)
        ensures
            exists|t: int| #[trigger] clock_after(old(cache)@, t, final(cache)@.text) == final(cache)@,
    {
        cache.current()
    }
}

/// Within the second after the text was formatted, every read of the clock serves that
/// same text; after it, the next read formats anew and serves it until a strictly later
/// instant.
pub proof fn lemma_clock_window(c: ClockView, t1: int, t2: int, f1: Seq<u8>, f2: Seq<u8>)
    requires
        c.next_update is Some,
        t1 <= t2,
    ensures
        t2 <= c.next_update->0 ==> clock_after(clock_after(c, t1, f1), t2, f2) == c,
        t2 <= c.next_update->0 ==> clock_after(c, t1, f1).text == clock_after(c, t2, f2).text,
        t2 > c.next_update->0 && t2 <= i64::MAX ==> {
            &&& clock_after(c, t2, f2).text == f2
            &&& clock_after(c, t2, f2).next_update->0 > c.next_update->0
        },
{
}

} // verus!
