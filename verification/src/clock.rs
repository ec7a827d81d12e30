//! The cluster clock.

use std::time::{Duration, SystemTime, SystemTimeError};

use vstd::prelude::*;

verus! {

// ── the system clock ─────────────────────────────────────────────────────────

/// A reading of the system clock.
#[verifier::external_type_specification]
#[verifier::external_body]
pub struct ExSystemTime(SystemTime);

/// The error of `SystemTime::duration_since`.
#[verifier::external_type_specification]
#[verifier::external_body]
pub struct ExSystemTimeError(SystemTimeError);

/// The nanoseconds between the Unix epoch and a reading, negative before the epoch.
pub uninterp spec fn epoch_nanos(t: SystemTime) -> int;

/// The nanoseconds of a duration.
pub uninterp spec fn nanos(d: Duration) -> nat;

/// The nanoseconds by which a reading lies before what it was held against.
pub uninterp spec fn missing_nanos(e: SystemTimeError) -> nat;

/// `SystemTime::now`: a reading of the system clock. Nothing can be said of it beforehand.
pub assume_specification[ SystemTime::now ]() -> SystemTime;

/// `SystemTime::duration_since` the Unix epoch: the time that has passed since, or an error with
/// the time that is missing where the reading lies before the epoch.
#[verifier::external_body]
fn since_epoch(t: &SystemTime) -> (r: Result<Duration, SystemTimeError>)
    ensures
        match r {
            Ok(d) => nanos(d) == epoch_nanos(*t),
            Err(e) => missing_nanos(e) == -epoch_nanos(*t) && epoch_nanos(*t) < 0,
        },
{
    t.duration_since(std::time::UNIX_EPOCH)
}

/// `SystemTimeError::duration`: the time that is missing.
pub assume_specification[ SystemTimeError::duration ](e: &SystemTimeError) -> (r: Duration)
    ensures
        nanos(r) == missing_nanos(*e),
;

/// `Duration::as_micros`: the whole microseconds of a duration.
pub assume_specification[ Duration::as_micros ](d: &Duration) -> (r: u128)
    ensures
        r == nanos(*d) / 1000,
;

/// `Duration::as_millis`: the whole milliseconds of a duration.
pub assume_specification[ Duration::as_millis ](d: &Duration) -> (r: u128)
    ensures
        r == nanos(*d) / 1_000_000,
;

/// How far a reading lies from the Unix epoch, in either direction.
pub open spec fn distance(t: SystemTime) -> nat {
    if epoch_nanos(t) >= 0 {
        epoch_nanos(t) as nat
    } else {
        (-epoch_nanos(t)) as nat
    }
}

/// The microseconds between the Unix epoch and a reading, in either direction, in 64 bits.
pub open spec fn micros_at(t: SystemTime) -> i64 {
    ((distance(t) / 1000) as u128) as i64
}

/// The milliseconds between the Unix epoch and a reading, in 64 bits.
pub open spec fn millis_at(t: SystemTime) -> i64 {
    ((distance(t) / 1_000_000) as u128) as i64
}

/// The microseconds between the Unix epoch and a reading, in either direction.
pub fn micros_of(t: &SystemTime) -> (r: i64)
    ensures
        r == micros_at(*t),
{
    let d = match since_epoch(t) {
        Ok(d) => d,
        Err(e) => e.duration(),
    };
    let micros: u128 = d.as_micros();
    micros as i64
}

/// A reading of the system clock lies before the Unix epoch.
#[derive(PartialEq, Eq, Structural, Clone, Copy, Debug)]
pub struct BeforeEpoch;

/// What the wall clock shows at a reading, in milliseconds: nothing before the Unix epoch.
pub open spec fn wall_at(t: SystemTime) -> Option<i64> {
    if epoch_nanos(t) >= 0 {
        Some(millis_at(t))
    } else {
        None
    }
}

/// The milliseconds from the Unix epoch to a reading that does not lie before it.
pub fn wall_millis_of(t: &SystemTime) -> (r: Result<i64, BeforeEpoch>)
    ensures
        r == (match wall_at(*t) {
            Some(millis) => Ok(millis),
            None => Err(BeforeEpoch),
        }),
{
    match since_epoch(t) {
        Ok(d) => {
            let millis: u128 = d.as_millis();
            Ok(millis as i64)
        },
        Err(_) => Err(BeforeEpoch),
    }
}

// ── the cluster clock ────────────────────────────────────────────────────────

/// A clock that tracks an offset relative to the cluster leader to ensure causal consistency
/// across locations even with system clock drift.
#[derive(Clone, Copy, Debug)]
pub struct ClusterClock {
    pub offset_ms: i64,
}

/// System time `micros` moved by `offset_ms` milliseconds, in 64-bit arithmetic that wraps.
pub open spec fn shifted(micros: i64, offset_ms: i64) -> i64 {
    micros.wrapping_add(offset_ms.wrapping_mul(1000))
}

impl ClusterClock {
    /// The cluster time in microseconds at a reading of the system clock.
    pub open spec fn micros(self, t: SystemTime) -> i64 {
        shifted(micros_at(t), self.offset_ms)
    }

    /// The cluster time in whole milliseconds at a reading of the system clock.
    pub open spec fn millis(self, t: SystemTime) -> i64 {
        whole_millis(self.micros(t) as int) as i64
    }

    pub fn new(offset_ms: i64) -> (r: Self)
        ensures
            r.offset_ms == offset_ms,
    {
        ClusterClock { offset_ms }
    }

    /// Updates the local clock offset relative to the cluster leader.
    /// Offset = (LeaderTime - LocalTime)
    pub fn set_offset(&mut self, offset_ms: i64)
        ensures
            final(self).offset_ms == offset_ms,
    {
        self.offset_ms = offset_ms;
    }

    pub fn get_offset(&self) -> (r: i64)
        ensures
            r == self.offset_ms,
    {
        self.offset_ms
    }

    /// The cluster time at system time `micros`.
    pub fn at_micros(&self, micros: i64) -> (r: i64)
        ensures
            r == shifted(micros, self.offset_ms),
    {
        micros.wrapping_add(self.offset_ms.wrapping_mul(1000))
    }

    /// Returns the current cluster-synchronized time in microseconds. This is the
    /// LWW timestamp stamped onto every mutating row and replicated fact.
    pub fn now_micros(&self) -> (r: i64)
        ensures
            exists|t: SystemTime| r == #[trigger] self.micros(t),
    {
        let t = SystemTime::now();
        let r: i64 = self.at_micros(micros_of(&t));
        assert(r == self.micros(t));
        r
    }

    /// The current cluster-synchronized time in whole milliseconds.
    pub fn now_millis(&self) -> (r: i64)
        ensures
            exists|t: SystemTime| r == #[trigger] self.millis(t),
            -9_223_372_036_854_775 <= r <= 9_223_372_036_854_775,
    {
        let t = SystemTime::now();
        let r: i64 = millis_of(self.at_micros(micros_of(&t)));
        assert(r == self.millis(t));
        r
    }
}

/// Microseconds as whole milliseconds, towards zero.
pub open spec fn whole_millis(micros: int) -> int {
    if micros >= 0 {
        micros / 1000
    } else {
        -((-micros) / 1000)
    }
}

/// Microseconds as whole milliseconds, towards zero.
pub fn millis_of(micros: i64) -> (r: i64)
    ensures
        r == whole_millis(micros as int),
        -9_223_372_036_854_775 <= r <= 9_223_372_036_854_775,
{
    let wide: i128 = micros as i128;
    if wide >= 0 {
        (wide / 1000) as i64
    } else {
        (-((-wide) / 1000)) as i64
    }
}

/// The offset, in milliseconds, at which a clock that reads `local_now_micros` agrees with a
/// leader that read `leader_micros` half a round trip ago.
pub open spec fn offset_to_leader(leader_micros: int, half_rtt_micros: int, local_now_micros: int) -> int {
    whole_millis(leader_micros + half_rtt_micros - local_now_micros)
}

/// The clock offset in milliseconds, towards zero, that the answer of a leader implies.
/// `rtt_micros` is the round-trip time of the request.
pub fn leader_offset_ms(leader_micros: i64, rtt_micros: u64, local_now_micros: i64) -> (r: i64)
    requires
        i64::MIN <= leader_micros + rtt_micros / 2 <= i64::MAX,
        i64::MIN <= leader_micros + rtt_micros / 2 - local_now_micros <= i64::MAX,
    ensures
        r == offset_to_leader(leader_micros as int, (rtt_micros / 2) as int, local_now_micros as int),
{
    let drift: i128 = leader_micros as i128 + (rtt_micros / 2) as i128 - local_now_micros as i128;
    millis_of(drift as i64)
}

/// Two offsets are more than ten milliseconds apart.
pub open spec fn drifted(old_ms: i64, new_ms: i64) -> bool {
    new_ms - old_ms > 10 || old_ms - new_ms > 10
}

/// Whether a fresh offset differs enough from the old one to be taken over: by more than
/// ten milliseconds.
pub fn offset_drifted(old_ms: i64, new_ms: i64) -> (r: bool)
    ensures
        r == drifted(old_ms, new_ms),
{
    let d: i128 = new_ms as i128 - old_ms as i128;
    d > 10 || d < -10
}

impl ClusterClock {
    /// Takes over `offset_ms` where it drifted from the current offset; says whether it did.
    pub fn refresh_offset(&mut self, offset_ms: i64) -> (r: bool)
        ensures
            r == drifted(old(self).offset_ms, offset_ms),
            final(self).offset_ms == (if r {
                offset_ms
            } else {
                old(self).offset_ms
            }),
    {
        if offset_drifted(self.offset_ms, offset_ms) {
            self.offset_ms = offset_ms;
            true
        } else {
            false
        }
    }
}

/// Later system times give later cluster times, as long as neither leaves the 64-bit range.
pub proof fn lemma_shift_monotone(a: i64, b: i64, offset_ms: i64)
    requires
        a <= b,
        i64::MIN <= offset_ms * 1000 <= i64::MAX,
        i64::MIN <= a + offset_ms * 1000,
        b + offset_ms * 1000 <= i64::MAX,
    ensures
        shifted(a, offset_ms) <= shifted(b, offset_ms),
        shifted(a, offset_ms) == a + offset_ms * 1000,
{
}

} // verus!
