//! Instants in UTC, held as whole seconds since the Unix epoch plus nanoseconds.
use vstd::prelude::*;

verus! {

/// Nanoseconds in one second.
pub const NANOS_PER_SEC: i128 = 1_000_000_000;

/// An instant in UTC: `secs` whole seconds since 1970-01-01T00:00:00Z and
/// `nanos` nanoseconds past that second. Instants are ordered by `secs`, then
/// by `nanos`.
#[derive(Clone, Copy, Debug, PartialEq, Eq, Structural, Hash, PartialOrd, Ord)]
pub struct Timestamp {
    pub secs: i64,
    pub nanos: u32,
}

/// What chrono's `DateTime<Utc>` parser makes of a text: the seconds and
/// nanoseconds of the instant, or `None` where the text is not a date and time.
pub uninterp spec fn parsed_utc(s: Seq<char>) -> Option<(i64, u32)>;

/// Relies on `<chrono::DateTime<Utc> as FromStr>::from_str`, with
/// `DateTime::timestamp` and `DateTime::timestamp_subsec_nanos`: the result
/// depends on the text alone.
#[verifier::external_body]
fn parse_utc(s: &str) -> (r: Option<(i64, u32)>)
    ensures
        r == parsed_utc(s@),
{
    match s.parse::<chrono::DateTime<chrono::Utc>>() {
        Ok(d) => Some((d.timestamp(), d.timestamp_subsec_nanos())),
        Err(_) => None,
    }
}

/// Relies on `chrono::Utc::now`, with `DateTime::timestamp` and
/// `DateTime::timestamp_subsec_nanos`: the current time, about which nothing
/// is promised.
#[verifier::external_body]
fn utc_now() -> (r: (i64, u32)) {
    let d = chrono::Utc::now();
    (d.timestamp(), d.timestamp_subsec_nanos())
}

impl Timestamp {
    /// `self` comes strictly before `other`.
    pub open spec fn before(self, other: Timestamp) -> bool {
        self.secs < other.secs || (self.secs == other.secs && self.nanos < other.nanos)
    }

    /// The signed number of nanoseconds from `earlier` to `self`.
    pub open spec fn nanos_since(self, earlier: Timestamp) -> int {
        (self.secs - earlier.secs) * NANOS_PER_SEC + (self.nanos - earlier.nanos)
    }

    pub fn new(secs: i64, nanos: u32) -> (r: Timestamp)
        ensures
            r.secs == secs,
            r.nanos == nanos,
    {
        Timestamp { secs, nanos }
    }

    /// Reads a date and time such as `2019-07-23T12:00:00Z`, as chrono reads
    /// a `DateTime<Utc>`.
    pub fn parse(s: &str) -> (r: Option<Timestamp>)
        ensures
            r == (match parsed_utc(s@) {
                Some(p) => Some(Timestamp { secs: p.0, nanos: p.1 }),
                None => None::<Timestamp>,
            }),
    {
        match parse_utc(s) {
            Some(p) => Some(Timestamp { secs: p.0, nanos: p.1 }),
            None => None,
        }
    }

    /// The current time.
    pub fn now() -> (r: Timestamp) {
        let (secs, nanos) = utc_now();
        Timestamp { secs, nanos }
    }

    pub fn is_before(&self, other: &Timestamp) -> (r: bool)
        ensures
            r == self.before(*other),
    {
        self.secs < other.secs || (self.secs == other.secs && self.nanos < other.nanos)
    }

    /// The signed duration from `earlier` to `self`, in nanoseconds.
    pub fn signed_nanos_since(&self, earlier: &Timestamp) -> (r: i128)
        ensures
            r == self.nanos_since(*earlier),
    {
        (self.secs as i128 - earlier.secs as i128) * NANOS_PER_SEC + (self.nanos as i128
            - earlier.nanos as i128)
    }
}

/// `before` is a strict total order.
pub proof fn lemma_before_total(a: Timestamp, b: Timestamp)
    ensures
        a.before(b) || b.before(a) || a == b,
        !(a.before(b) && b.before(a)),
        !a.before(a),
{
}

} // verus!
