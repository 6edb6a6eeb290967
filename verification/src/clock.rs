use vstd::prelude::*;

verus! {

/// A time on the monotonic clock: seconds and nanoseconds.
#[derive(Copy, Clone, Debug, PartialEq, Eq, Structural)]
pub struct TSClock {
    pub tv_sec: i64,
    pub tv_nsec: i64,
}

/// A duration in microseconds.
pub type TSDuration = u64;

/// The duration of `micros` microseconds.
pub fn duration_from_micros(micros: u64) -> (d: TSDuration)
    ensures
        d == micros,
{
    micros
}

/// The microseconds of a duration.
pub fn duration_to_micros(self_0: TSDuration) -> (micros: u64)
    ensures
        micros == self_0,
{
    self_0
}

/// The time that stands for no time at all.
pub fn clock_null() -> (c: TSClock)
    ensures
        c == (TSClock { tv_sec: 0, tv_nsec: 0 }),
{
    TSClock { tv_sec: 0, tv_nsec: 0 }
}

/// The time `duration` after `base`: whole seconds added to the seconds, and
/// the rest, in nanoseconds, to the nanoseconds (in 64-bit wrapping
/// arithmetic).
pub fn clock_after(base: TSClock, duration: TSDuration) -> (c: TSClock)
    ensures
        c.tv_sec == ((((base.tv_sec as u64) as int + duration / 1_000_000) % 0x1_0000_0000_0000_0000)
            as u64) as i64,
        c.tv_nsec == ((((base.tv_nsec as u64) as int + (duration % 1_000_000) * 1000)
            % 0x1_0000_0000_0000_0000) as u64) as i64,
        0 <= base.tv_sec && base.tv_sec + duration / 1_000_000 <= i64::MAX ==> c.tv_sec
            == base.tv_sec + duration / 1_000_000,
        0 <= base.tv_nsec && base.tv_nsec + (duration % 1_000_000) * 1000 <= i64::MAX ==> c.tv_nsec
            == base.tv_nsec + (duration % 1_000_000) * 1000,
{
    let seconds = (base.tv_sec as u64).wrapping_add(duration / 1_000_000);
    let nanos = (base.tv_nsec as u64).wrapping_add((duration % 1_000_000) * 1000);
    TSClock { tv_sec: seconds as i64, tv_nsec: nanos as i64 }
}

/// Whether a time is the null time: no seconds.
pub fn clock_is_null(self_0: TSClock) -> (r: bool)
    ensures
        r == (self_0.tv_sec == 0),
{
    self_0.tv_sec == 0
}

/// Whether a time comes after another: more seconds, or as many and more
/// nanoseconds.
pub fn clock_is_gt(self_0: TSClock, other: TSClock) -> (r: bool)
    ensures
        r == (self_0.tv_sec > other.tv_sec || (self_0.tv_sec == other.tv_sec && self_0.tv_nsec
            > other.tv_nsec)),
{
    if self_0.tv_sec > other.tv_sec {
        return true;
    }
    if self_0.tv_sec < other.tv_sec {
        return false;
    }
    self_0.tv_nsec > other.tv_nsec
}

} // verus!
