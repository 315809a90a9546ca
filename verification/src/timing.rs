//! Timing of one call: time-stamp-counter cycles and wall-clock time.
use vstd::prelude::*;

verus! {

/// Declares `std::time::Instant`, a point of the monotonic clock, to the verifier; values of it
/// are carried through, never inspected.
#[verifier::external_type_specification]
#[verifier::external_body]
pub struct ExInstant(std::time::Instant);

/// The current point of the monotonic clock, from `std::time::Instant::now`. Nothing is claimed
/// of it: it depends on the time of the call.
#[verifier::external_body]
pub fn instant_now() -> std::time::Instant {
    std::time::Instant::now()
}

/// Time passed since `start`, from `std::time::Instant::elapsed`. Nothing is claimed of it: it
/// depends on the time of the call.
#[verifier::external_body]
fn elapsed_since(start: &std::time::Instant) -> std::time::Duration {
    start.elapsed()
}

/// A sequentially consistent compiler fence, from `std::sync::atomic::compiler_fence`: the
/// compiler moves no memory access across it. It has no value to claim anything of.
#[verifier::external_body]
fn compiler_fence() {
    std::sync::atomic::compiler_fence(std::sync::atomic::Ordering::SeqCst)
}

/// Result of a timed call with the counter cycles and the wall-clock time it took.
pub struct Timed<T> {
    pub value: T,
    pub cycles: u64,
    pub elapsed: std::time::Duration,
}

/// Counter difference `end - start`, or 0 if the counter went back.
pub open spec fn counter_delta(start: u64, end: u64) -> u64 {
    if end >= start {
        (end - start) as u64
    } else {
        0
    }
}

/// Runs `f` once between two readings of the cycle counter `read_cycles` (fenced against
/// reordering) and of the wall clock: `value` is what `f` returned and `cycles` the difference
/// of the two counter readings, or 0 if the counter went back.
pub fn time_call<T, F: FnOnce() -> T, C: Fn() -> u64>(f: F, read_cycles: C) -> (t: Timed<T>)
    requires
        f.requires(()),
        forall|u: ()| #[trigger] read_cycles.requires(u),
    ensures
        f.ensures((), t.value),
        exists|c0: u64, c1: u64|
            #![trigger read_cycles.ensures((), c0), read_cycles.ensures((), c1)]
            read_cycles.ensures((), c0) && read_cycles.ensures((), c1) && t.cycles == counter_delta(c0, c1),
{
    let wall0 = instant_now();
    let c0: u64 = read_cycles();
    compiler_fence();
    let value = f();
    compiler_fence();
    let c1: u64 = read_cycles();
    let elapsed = elapsed_since(&wall0);
    Timed { value, cycles: c1.saturating_sub(c0), elapsed }
}

/// Unit of the `cycles` field of `Timed`: `"rdtsc cycles"` when the counter is the processor's
/// time-stamp counter, `"ns"` when it counts nanoseconds.
pub fn cycles_label(counts_cycles: bool) -> (s: &'static str)
    ensures
        s@ == (if counts_cycles { "rdtsc cycles"@ } else { "ns"@ }),
{
    if counts_cycles {
        "rdtsc cycles"
    } else {
        "ns"
    }
}

} // verus!
