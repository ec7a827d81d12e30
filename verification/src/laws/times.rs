//! What the clocks tell.

use std::time::SystemTime;

use vstd::prelude::*;

use crate::clock;
use crate::clock::ClusterClock;

verus! {

/// `m` is `n` thousandths without the part behind the point: it has the sign of `n`, and is less
/// than one off.
pub open spec fn thousandths(n: int, m: int) -> bool {
    &&& n >= 0 ==> 1000 * m <= n < 1000 * m + 1000
    &&& n <= 0 ==> 1000 * m - 1000 < n <= 1000 * m
}

/// Milliseconds are the whole thousands of the microseconds, on both sides of zero.
pub proof fn lemma_whole_millis(micros: int)
    ensures
        thousandths(micros, clock::whole_millis(micros)),
{
}

/// The system clock in microseconds and in milliseconds, as far as they fit.
pub proof fn lemma_system_clock(t: SystemTime)
    requires
        0 <= clock::epoch_nanos(t) < 1000 * 0x8000_0000_0000_0000,
    ensures
        1000 * clock::micros_at(t) <= clock::epoch_nanos(t) < 1000 * clock::micros_at(t) + 1000,
        1_000_000 * clock::millis_at(t) <= clock::epoch_nanos(t) < 1_000_000 * clock::millis_at(t)
            + 1_000_000,
        clock::wall_at(t) == Some(clock::millis_at(t)),
{
    let n = clock::epoch_nanos(t);
    assert(0 <= n / 1000 < 0x8000_0000_0000_0000);
    assert(0 <= n / 1_000_000 < 0x8000_0000_0000_0000);
}

/// Before the epoch the wall clock tells nothing.
pub proof fn lemma_before_epoch(t: SystemTime)
    requires
        clock::epoch_nanos(t) < 0,
    ensures
        clock::wall_at(t) is None,
        -clock::epoch_nanos(t) < 1000 * 0x8000_0000_0000_0000 ==> 1000 * clock::micros_at(t)
            <= -clock::epoch_nanos(t) < 1000 * clock::micros_at(t) + 1000,
{
    let n = -clock::epoch_nanos(t);
    if n < 1000 * 0x8000_0000_0000_0000 {
        assert(0 <= n / 1000 < 0x8000_0000_0000_0000);
    }
}

/// The cluster clock is the system clock, and the offset on top of it.
pub proof fn lemma_cluster_clock(c: ClusterClock, t: SystemTime)
    requires
        i64::MIN <= c.offset_ms * 1000 <= i64::MAX,
        i64::MIN <= clock::micros_at(t) + c.offset_ms * 1000 <= i64::MAX,
    ensures
        c.micros(t) == clock::micros_at(t) + 1000 * c.offset_ms,
        thousandths(c.micros(t) as int, c.millis(t) as int),
{
    lemma_whole_millis(c.micros(t) as int);
}

/// An offset that is added to the local clock brings it to the time of the leader, as it was half a
/// round trip ago, to less than a millisecond.
pub proof fn lemma_offset(leader: int, half_trip: int, local: int)
    ensures
        ({
            let gap = leader + half_trip - (local + 1000 * clock::offset_to_leader(
                leader,
                half_trip,
                local,
            ));
            -1000 < gap < 1000
        }),
        leader + half_trip == local ==> clock::offset_to_leader(leader, half_trip, local) == 0,
{
    lemma_whole_millis(leader + half_trip - local);
}

/// A clock has drifted where it is more than ten milliseconds off, to either side.
pub proof fn lemma_drifted(from: i64, to: i64)
    ensures
        clock::drifted(from, to) == (to > from + 10 || to < from - 10),
        clock::drifted(from, to) == clock::drifted(to, from),
{
}

} // verus!
