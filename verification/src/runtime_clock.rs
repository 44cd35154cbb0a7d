//! Monotonic nanosecond time from the host's raw clock readings. The host
//! reads the clock; the library checks and scales what it read, keeping the
//! host's origin and never rounding up.
use vstd::prelude::*;

verus! {

pub const NANOS_PER_MILLI: u64 = 1_000_000;
/// The longest single wait; the driver checks cancellation between waits.
pub const MAX_WAIT_NANOS: u64 = 100_000_000;
pub const NANOS_PER_SECOND: u64 = 1_000_000_000;

/// Nanoseconds from a performance counter and its frequency, rounded down.
pub fn ticks_to_nanoseconds(count: i64, frequency: i64) -> (r: Result<u64, String>)
    ensures
        count < 0 ==> r is Err,
        count >= 0 && frequency <= 0 ==> r is Err,
        count >= 0 && frequency > 0 ==> (r is Ok <==> (count as int * 1_000_000_000) / (frequency as int) <= u64::MAX),
        r matches Ok(v) ==> v == (count as int * 1_000_000_000) / (frequency as int),
{
    if count < 0 {
        return Err("monotonic clock returned a negative count".to_owned());
    }
    if frequency <= 0 {
        return Err("monotonic clock returned an invalid frequency".to_owned());
    }
    let c = count as u128;
    let f = frequency as u128;
    proof {
        assert(c * 1_000_000_000 <= 0x7fff_ffff_ffff_ffffu128 * 1_000_000_000) by (nonlinear_arith)
            requires
                c <= 0x7fff_ffff_ffff_ffffu128,
        ;
    }
    let scaled = c * 1_000_000_000 / f;
    if scaled > u64::MAX as u128 {
        return Err("monotonic clock exceeds the native nanosecond range".to_owned());
    }
    Ok(scaled as u64)
}

/// Nanoseconds from a `timespec` reading: whole seconds and the
/// nanoseconds within the second.
pub fn timespec_nanoseconds(seconds: i64, nanos: i64) -> (r: Result<u64, String>)
    ensures
        seconds < 0 ==> r is Err,
        seconds >= 0 && !(0 <= nanos < 1_000_000_000) ==> r is Err,
        seconds >= 0 && 0 <= nanos < 1_000_000_000 ==> (r is Ok <==> seconds * 1_000_000_000 + nanos <= u64::MAX),
        r matches Ok(v) ==> v == seconds * 1_000_000_000 + nanos,
{
    if seconds < 0 {
        return Err("monotonic clock returned negative seconds".to_owned());
    }
    if nanos < 0 || nanos >= 1_000_000_000 {
        return Err("monotonic clock returned invalid nanoseconds".to_owned());
    }
    let s = seconds as u64;
    let n = nanos as u64;
    match s.checked_mul(NANOS_PER_SECOND) {
        Some(total) => match total.checked_add(n) {
            Some(v) => Ok(v),
            None => Err("monotonic clock exceeds the native nanosecond range".to_owned()),
        },
        None => {
            proof {
                assert(s * 1_000_000_000 + n > u64::MAX);
            }
            Err("monotonic clock exceeds the native nanosecond range".to_owned())
        },
    }
}

/// How long one wait may last.
pub fn bounded_wait(nanoseconds: u64) -> (r: u64)
    ensures
        r == if nanoseconds < MAX_WAIT_NANOS { nanoseconds } else { MAX_WAIT_NANOS },
{
    if nanoseconds < MAX_WAIT_NANOS {
        nanoseconds
    } else {
        MAX_WAIT_NANOS
    }
}

/// Scaling keeps the order of readings: a later counter value, at the same
/// frequency, never gives an earlier time.
pub proof fn law_scaling_keeps_order(c1: i64, c2: i64, frequency: i64)
    requires
        0 <= c1 <= c2,
        frequency > 0,
    ensures
        (c1 as int * 1_000_000_000) / (frequency as int) <= (c2 as int * 1_000_000_000) / (frequency as int),
{
    vstd::arithmetic::div_mod::lemma_div_is_ordered(c1 as int * 1_000_000_000, c2 as int * 1_000_000_000, frequency as int);
}

/// A later `timespec` reading (more seconds, or as many seconds and more
/// nanoseconds) never gives an earlier time.
pub proof fn law_timespec_keeps_order(s1: i64, n1: i64, s2: i64, n2: i64)
    requires
        0 <= s1,
        0 <= n1 < 1_000_000_000,
        0 <= n2 < 1_000_000_000,
        s1 < s2 || (s1 == s2 && n1 <= n2),
    ensures
        s1 * 1_000_000_000 + n1 <= s2 * 1_000_000_000 + n2,
{
}

} // verus!
