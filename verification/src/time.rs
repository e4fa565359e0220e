use vstd::prelude::*;

verus! {

#[verifier::external_type_specification]
#[verifier::external_body]
pub struct ExSystemTime(std::time::SystemTime);

/// The current time of the system clock.
///
/// Calls `std::time::SystemTime::now`; nothing is claimed of the value.
#[verifier::external_body]
fn system_time_now() -> std::time::SystemTime {
    std::time::SystemTime::now()
}

#[verifier::external_type_specification]
#[verifier::external_body]
pub struct ExSystemTimeError(std::time::SystemTimeError);

/// How far a point in time lies after the UNIX epoch.
///
/// Calls `SystemTime::duration_since(UNIX_EPOCH)`, which fails where the point lies before the
/// epoch; nothing is claimed of the value.
#[verifier::external_body]
fn duration_since_unix_epoch(t: &std::time::SystemTime) -> Result<
    core::time::Duration,
    std::time::SystemTimeError,
> {
    t.duration_since(std::time::UNIX_EPOCH)
}

/// How far the point in time lay before the epoch, from the error of `duration_since`.
///
/// Calls `SystemTimeError::duration`; nothing is claimed of the value.
#[verifier::external_body]
fn error_duration(e: &std::time::SystemTimeError) -> core::time::Duration {
    e.duration()
}

/// The whole seconds of a duration.
///
/// Calls `Duration::as_secs`; nothing is claimed of the value.
#[verifier::external_body]
fn duration_as_secs(d: &core::time::Duration) -> u64 {
    d.as_secs()
}

/// The fractional part of a duration, in nanoseconds.
///
/// Calls `Duration::subsec_nanos`, which its documentation says is always less than one
/// billion.
#[verifier::external_body]
fn duration_subsec_nanos(d: &core::time::Duration) -> (n: u32)
    ensures
        n < 1_000_000_000,
{
    d.subsec_nanos()
}

/// A reading of the system clock: whether it lies before the UNIX epoch, and how far from the
/// epoch it lies, as whole seconds and the remaining nanoseconds.
pub struct ClockReading {
    pub before_epoch: bool,
    pub secs: u64,
    pub subsec_nanos: u32,
}

/// Reads the system clock.
pub fn read_clock() -> (r: ClockReading)
    ensures
        r.subsec_nanos < 1_000_000_000,
{
    let t = system_time_now();
    match duration_since_unix_epoch(&t) {
        Ok(d) => ClockReading {
            before_epoch: false,
            secs: duration_as_secs(&d),
            subsec_nanos: duration_subsec_nanos(&d),
        },
        Err(e) => {
            let d = error_duration(&e);
            ClockReading {
                before_epoch: true,
                secs: duration_as_secs(&d),
                subsec_nanos: duration_subsec_nanos(&d),
            }
        },
    }
}

/// The microsecond timestamp, on 32 bits, of a time given as seconds and nanoseconds since the
/// UNIX epoch: it wraps around every 2^32 microseconds.
pub open spec fn timestamp_of(secs: u64, subsec_nanos: u32) -> u32 {
    ((secs * 1_000_000 + subsec_nanos / 1000) % 0x1_0000_0000) as u32
}

/// Converts a time given as seconds and nanoseconds since the UNIX epoch into a microsecond
/// timestamp on 32 bits.
pub fn timestamp_from_duration(secs: u64, subsec_nanos: u32) -> (t: u32)
    ensures
        t == timestamp_of(secs, subsec_nanos),
{
    let p = secs.wrapping_mul(1_000_000);
    let low = p as u32;
    let n = subsec_nanos / 1000;
    let t = low.wrapping_add(n);
    proof {
        let m: int = secs * 1_000_000;
        assert(p == m % 0x1_0000_0000_0000_0000);
        assert(low == p % 0x1_0000_0000) by (bit_vector)
            requires
                low == p as u32,
        ;
        vstd::arithmetic::div_mod::lemma_mod_mod(m, 0x1_0000_0000, 0x1_0000_0000);
        assert(0x1_0000_0000int * 0x1_0000_0000int == 0x1_0000_0000_0000_0000int);
        vstd::arithmetic::div_mod::lemma_add_mod_noop(m, n as int, 0x1_0000_0000);
        vstd::arithmetic::div_mod::lemma_small_mod(n as nat, 0x1_0000_0000);
        assert(t == (low + n) % 0x1_0000_0000);
    }
    t
}

/// The signed time of a clock reading, as whole seconds and nanoseconds in `0 .. 10^9`: a
/// reading before the epoch has negative seconds.
pub open spec fn signed_time(r: ClockReading) -> (int, int) {
    if !r.before_epoch {
        (r.secs as int, r.subsec_nanos as int)
    } else if r.subsec_nanos == 0 {
        (-r.secs, 0)
    } else {
        (-r.secs - 1, 1_000_000_000 - r.subsec_nanos)
    }
}

/// The microsecond timestamp, on 32 bits, of a signed time: the microseconds since the epoch,
/// taken modulo 2^32.
pub open spec fn signed_timestamp_of(sec: int, nsec: int) -> u32 {
    ((sec * 1_000_000 + nsec / 1000) % 0x1_0000_0000) as u32
}

/// The microsecond timestamp of a clock reading, before the epoch counting backwards.
pub fn timestamp_of_reading(r: &ClockReading) -> (t: u32)
    requires
        r.subsec_nanos < 1_000_000_000,
    ensures
        t == signed_timestamp_of(signed_time(*r).0, signed_time(*r).1),
{
    if !r.before_epoch {
        return timestamp_from_duration(r.secs, r.subsec_nanos);
    }
    let (sec_w, nsec): (u64, u32) = if r.subsec_nanos == 0 {
        (0u64.wrapping_sub(r.secs), 0)
    } else {
        (0u64.wrapping_sub(r.secs).wrapping_sub(1), 1_000_000_000 - r.subsec_nanos)
    };
    let t = timestamp_from_duration(sec_w, nsec);
    proof {
        let sec: int = signed_time(*r).0;
        let k: int = (nsec / 1000) as int;
        let m: int = 0x1_0000_0000;
        let big: int = m * 1_000_000;
        if sec < 0 {
            assert(sec_w == sec + 0x1_0000_0000_0000_0000);
            assert(sec_w * 1_000_000 + k == m * big + (sec * 1_000_000 + k)) by (nonlinear_arith)
                requires
                    sec_w == sec + 0x1_0000_0000_0000_0000,
                    big == m * 1_000_000,
                    m == 0x1_0000_0000,
            ;
            vstd::arithmetic::div_mod::lemma_mod_multiples_vanish(big, sec * 1_000_000 + k, m);
        } else {
            assert(sec_w == sec);
        }
    }
    t
}

/// Return current time in microseconds since the UNIX epoch.
///
/// The value is `timestamp_from_duration` of the system clock's distance to the epoch, which
/// counts a clock before the epoch as the length of the gap; since the clock may read any time,
/// every `u32` is a possible result and the contract states nothing of it.
pub fn now_microseconds() -> u32 {
    let r = read_clock();
    timestamp_from_duration(r.secs, r.subsec_nanos)
}

} // verus!
