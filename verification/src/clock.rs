//! The monotonic clock, and the verified arithmetic on its readings.
//!
//! The queue never assumes anything about raw clock values: the trusted
//! declarations below only name the clock operations and promise what their
//! documentation plainly states, and every reading is reduced to plain
//! `(seconds, subsecond nanoseconds)` pairs on which all further arithmetic
//! is verified code.

use vstd::prelude::*;

verus! {

#[verifier::external_type_specification]
#[verifier::external_body]
pub struct ExInstant(std::time::Instant);

/// Relies on `std::time::Instant::now`: a reading of the monotonic clock.
/// Nothing is assumed of the value.
pub assume_specification[ std::time::Instant::now ]() -> std::time::Instant;

/// Relies on `std::time::Instant::duration_since`: the time elapsed from
/// `earlier` to `this`, or zero if `earlier` is the later of the two.
/// Nothing is assumed of the value.
pub assume_specification[ std::time::Instant::duration_since ](
    this: &std::time::Instant,
    earlier: std::time::Instant,
) -> std::time::Duration;

/// Relies on `std::time::Duration::as_secs`: the whole-second part of the
/// duration. Nothing is assumed of the value.
pub assume_specification[ std::time::Duration::as_secs ](this: &std::time::Duration) -> u64;

/// Relies on `std::time::Duration::subsec_nanos`: the fractional part of the
/// duration, which its documentation promises is less than one billion
/// nanoseconds.
pub assume_specification[ std::time::Duration::subsec_nanos ](
    this: &std::time::Duration,
) -> (r: u32)
    ensures
        r < 1_000_000_000,
;

/// A duration, given as whole seconds and the subsecond nanoseconds, as a
/// 32-bit relative microsecond timestamp; the count wraps modulo 2^32, as
/// all timestamp arithmetic of this protocol does.
pub fn as_micros(secs: u64, subsec_nanos: u32) -> (r: u32)
    ensures
        r == (secs * 1_000_000 + subsec_nanos / 1_000) % 0x1_0000_0000,
{
    let w: u64 = secs.wrapping_mul(1_000_000);
    let ret: u32 = (w % 0x1_0000_0000) as u32;
    let micros: u32 = subsec_nanos / 1_000;
    let r = ret.wrapping_add(micros);
    proof {
        let x = secs * 1_000_000;
        let d = micros as int;
        let m = 0x1_0000_0000int;
        assert(0x1_0000_0000int * 0x1_0000_0000int == 0x1_0000_0000_0000_0000int)
            by (nonlinear_arith);
        assert(m * m == 0x1_0000_0000_0000_0000int);
        assert(w == x % (m * m));
        vstd::arithmetic::div_mod::lemma_mod_mod(x, m, m);
        assert(ret == x % m);
        vstd::arithmetic::div_mod::lemma_add_mod_noop(x, d, m);
        vstd::arithmetic::div_mod::lemma_small_mod(d as nat, m as nat);
        assert((ret + d) % m == (x + d) % m);
        if ret + d <= u32::MAX {
            vstd::arithmetic::div_mod::lemma_small_mod((ret + d) as nat, m as nat);
        } else {
            vstd::arithmetic::div_mod::lemma_sub_mod_noop(ret + d, m, m);
            vstd::arithmetic::div_mod::lemma_mod_self_0(m);
            vstd::arithmetic::div_mod::lemma_mod_twice(ret + d, m);
            vstd::arithmetic::div_mod::lemma_small_mod((ret + d - m) as nat, m as nat);
        }
    }
    r
}

/// A duration, given as whole seconds and the subsecond nanoseconds, in
/// whole milliseconds, clamped: anything beyond 30 seconds counts as
/// exactly 30 000 ms, bounding what one stalled round trip can tell the
/// estimator.
pub fn as_ms(secs: u64, subsec_nanos: u32) -> (r: u64)
    requires
        subsec_nanos < 1_000_000_000,
    ensures
        r == if secs * 1_000 + subsec_nanos / 1_000_000 > 30_000 {
            30_000int
        } else {
            secs * 1_000 + subsec_nanos / 1_000_000
        },
        r <= 30_000,
{
    if secs > 30 {
        30_000
    } else {
        let sub_ms: u32 = subsec_nanos / 1_000_000;
        let ms = secs * 1_000 + (sub_ms as u64);
        if ms > 30_000 {
            30_000
        } else {
            ms
        }
    }
}

} // verus!
