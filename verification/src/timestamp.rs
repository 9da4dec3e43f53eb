//! The timestamp value that the codec converts: a timezone-naive point in
//! civil time held as whole seconds since the Unix epoch plus a non-negative
//! sub-second nanosecond part.
use vstd::prelude::*;
use vstd::arithmetic::div_mod::{
    lemma_fundamental_div_mod, lemma_fundamental_div_mod_converse_div,
    lemma_fundamental_div_mod_converse_mod, lemma_div_multiples_vanish,
    lemma_mod_division_less_than_divisor,
};

verus! {

/// Nanoseconds in one second; the sub-second part is always below this.
pub const NANOS_PER_SEC: u32 = 1_000_000_000;

/// Nanoseconds in one millisecond.
pub const NANOS_PER_MILLI: u32 = 1_000_000;

/// A timezone-naive timestamp: seconds since 1970-01-01T00:00:00 plus a
/// non-negative nanosecond part in `[0, NANOS_PER_SEC)`. Points before the
/// epoch have a negative `seconds` and still a non-negative `nanoseconds`.
#[derive(Clone, Copy, Debug, PartialEq, Eq, Structural)]
pub struct Timestamp {
    pub seconds: i64,
    pub nanoseconds: u32,
}

impl Timestamp {
    /// Well-formedness: the nanosecond part never reaches a whole second.
    pub open spec fn wf(self) -> bool {
        self.nanoseconds < NANOS_PER_SEC
    }

    /// The timestamp as a single count of nanoseconds since the epoch.
    pub open spec fn total_nanos(self) -> int {
        self.seconds * (NANOS_PER_SEC as int) + self.nanoseconds
    }

    /// Milliseconds since the epoch, the sub-millisecond remainder discarded
    /// (floor division, so the remainder is dropped toward minus infinity).
    pub open spec fn spec_millis(self) -> int {
        self.total_nanos() / (NANOS_PER_MILLI as int)
    }

    /// Whether the millisecond count fits the signed 64-bit wire width.
    pub open spec fn millis_in_range(self) -> bool {
        i64::MIN <= self.spec_millis() <= i64::MAX
    }

    pub fn new(seconds: i64, nanoseconds: u32) -> (t: Timestamp)
        requires
            nanoseconds < NANOS_PER_SEC,
        ensures
            t == (Timestamp { seconds, nanoseconds }),
            t.wf(),
    {
        Timestamp { seconds, nanoseconds }
    }

    /// The millisecond count since the epoch, or `None` exactly when that
    /// count leaves the signed 64-bit range.
    pub fn checked_millis(&self) -> (r: Option<i64>)
        ensures
            r.is_some() <==> self.millis_in_range(),
            r matches Some(ms) ==> ms as int == self.spec_millis(),
    {
        let sub_ms = self.nanoseconds / NANOS_PER_MILLI;
        let total: i128 = (self.seconds as i128) * 1000 + (sub_ms as i128);
        proof {
            let s = self.seconds as int;
            let n = self.nanoseconds as int;
            let q = s * 1000 + n / 1_000_000;
            let r = n % 1_000_000;
            lemma_fundamental_div_mod(n, 1_000_000);
            lemma_mod_division_less_than_divisor(n, 1_000_000);
            assert(s * 1_000_000_000 + n == q * 1_000_000 + r);
            lemma_fundamental_div_mod_converse_div(s * 1_000_000_000 + n, 1_000_000, q, r);
            assert(self.spec_millis() == q);
            assert(total == q);
        }
        if total < i64::MIN as i128 || total > i64::MAX as i128 {
            None
        } else {
            Some(total as i64)
        }
    }

    /// The timestamp holding a given millisecond count: seconds are the
    /// floor of the count over 1000, so the nanosecond part stays
    /// non-negative also for counts before the epoch.
    pub fn from_millis(ms: i64) -> (t: Timestamp)
        ensures
            t == timestamp_of_millis(ms as int),
            t.wf(),
            t.spec_millis() == ms as int,
            t.millis_in_range(),
    {
        proof {
            lemma_fundamental_div_mod(ms as int, 1000);
            lemma_mod_division_less_than_divisor(ms as int, 1000);
            lemma_of_millis(ms as int);
        }
        let seconds = ms.checked_div_euclid(1000).unwrap();
        let rem = ms.checked_rem_euclid(1000).unwrap();
        let nanoseconds = (rem as u32) * NANOS_PER_MILLI;
        Timestamp { seconds, nanoseconds }
    }
}

/// The timestamp that a millisecond count decodes to.
pub open spec fn timestamp_of_millis(ms: int) -> Timestamp {
    Timestamp {
        seconds: (ms / 1000) as i64,
        nanoseconds: ((ms % 1000) * (NANOS_PER_MILLI as int)) as u32,
    }
}

/// For a millisecond count in the signed 64-bit range, decoding gives a
/// well-formed timestamp that carries exactly that count.
pub proof fn lemma_of_millis(ms: int)
    requires
        i64::MIN <= ms <= i64::MAX,
    ensures
        timestamp_of_millis(ms).wf(),
        timestamp_of_millis(ms).total_nanos() == ms * (NANOS_PER_MILLI as int),
        timestamp_of_millis(ms).spec_millis() == ms,
        timestamp_of_millis(ms).millis_in_range(),
{
    let q = ms / 1000;
    let r = ms % 1000;
    lemma_fundamental_div_mod(ms, 1000);
    lemma_mod_division_less_than_divisor(ms, 1000);
    assert(i64::MIN <= q <= i64::MAX);
    let t = timestamp_of_millis(ms);
    assert(t.seconds == q);
    assert(t.nanoseconds == r * 1_000_000);
    assert(t.total_nanos() == q * 1_000_000_000 + r * 1_000_000);
    assert(t.total_nanos() == ms * 1_000_000);
    lemma_div_multiples_vanish(ms, 1_000_000);
    assert((1_000_000 * ms) / 1_000_000 == ms);
    assert(t.spec_millis() == ms);
}

/// A well-formed timestamp with no sub-millisecond remainder is recovered
/// exactly from its millisecond count.
pub proof fn lemma_millis_roundtrip(t: Timestamp)
    requires
        t.wf(),
        t.nanoseconds % NANOS_PER_MILLI == 0,
        t.millis_in_range(),
    ensures
        timestamp_of_millis(t.spec_millis()) == t,
{
    let s = t.seconds as int;
    let n = t.nanoseconds as int;
    let u = n / 1_000_000;
    lemma_fundamental_div_mod(n, 1_000_000);
    assert(n == 1_000_000 * u);
    assert(0 <= u < 1000);
    let total = s * 1_000_000_000 + n;
    assert(total == (s * 1000 + u) * 1_000_000 + 0);
    lemma_fundamental_div_mod_converse_div(total, 1_000_000, s * 1000 + u, 0);
    let ms = t.spec_millis();
    assert(ms == s * 1000 + u);
    lemma_fundamental_div_mod_converse_div(ms, 1000, s, u);
    lemma_fundamental_div_mod_converse_mod(ms, 1000, s, u);
    assert(ms / 1000 == s);
    assert(ms % 1000 == u);
    assert(timestamp_of_millis(ms).seconds == t.seconds);
    assert(timestamp_of_millis(ms).nanoseconds == t.nanoseconds);
}

/// Decoding a timestamp's millisecond count discards exactly the
/// sub-millisecond nanosecond remainder and nothing else.
pub proof fn lemma_millis_truncation(t: Timestamp)
    requires
        t.millis_in_range(),
    ensures
        timestamp_of_millis(t.spec_millis()).wf(),
        timestamp_of_millis(t.spec_millis()).spec_millis() == t.spec_millis(),
        timestamp_of_millis(t.spec_millis()).total_nanos() == t.total_nanos() - t.total_nanos()
            % (NANOS_PER_MILLI as int),
{
    let ms = t.spec_millis();
    lemma_of_millis(ms);
    lemma_fundamental_div_mod(t.total_nanos(), 1_000_000);
}

} // verus!
