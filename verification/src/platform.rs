//! Trusted declarations for the standard library's clock and blocking primitives.

use std::hash::{BuildHasher, RandomState};
use std::sync::{Condvar, Mutex, PoisonError};
use std::time::{Duration, Instant};

use vstd::prelude::*;

verus! {

#[verifier::external_type_specification]
#[verifier::external_body]
pub struct ExInstant(Instant);

#[verifier::external_type_specification]
#[verifier::external_body]
pub struct ExCondvar(Condvar);

#[verifier::external_type_specification]
#[verifier::external_body]
#[verifier::reject_recursive_types(T)]
pub struct ExMutex<T: ?Sized>(Mutex<T>);

/// Calls `RandomState::new`, whose keys are random per thread and change with
/// every call. Nothing is stated about them.
#[verifier::external_body]
pub(crate) fn random_state() -> RandomState {
    RandomState::new()
}

/// Calls `BuildHasher::hash_one` on the unit value. The result depends on the
/// random keys of `state`, so nothing is stated about it.
#[verifier::external_body]
pub(crate) fn hash_unit(state: &RandomState) -> u64 {
    state.hash_one(())
}

/// Nanoseconds in the longest representable `Duration`
/// (`u64::MAX` seconds and 999,999,999 nanoseconds).
pub const MAX_DURATION_NANOS: u128 = 18_446_744_073_709_551_615_999_999_999u128;

/// Nanoseconds in one second.
pub const NANOS_PER_SECOND: u128 = 1_000_000_000u128;

/// Calls `Instant::now`. The reading depends on the system clock, so nothing is
/// stated about it.
#[verifier::external_body]
pub(crate) fn instant_now() -> Instant {
    Instant::now()
}

/// Calls `Instant::elapsed`. The result depends on the system clock, so nothing
/// is stated about it.
#[verifier::external_body]
pub(crate) fn instant_elapsed(origin: &Instant) -> Duration {
    origin.elapsed()
}

/// Calls `Duration::as_nanos`, the total number of nanoseconds in the duration.
/// The documentation states that a duration is a `u64` count of seconds plus
/// fewer than one billion nanoseconds, which bounds the result; the exact value
/// is not stated because `Duration` is opaque here.
#[verifier::external_body]
pub(crate) fn duration_as_nanos(duration: Duration) -> (nanos: u128)
    ensures
        nanos <= MAX_DURATION_NANOS,
{
    duration.as_nanos()
}

/// The duration that `Duration::new` builds from whole seconds and nanoseconds.
pub uninterp spec fn duration_from_parts(seconds: u64, nanos: u32) -> Duration;

/// Calls `Duration::new`, which panics only when the nanoseconds carry past
/// `u64::MAX` seconds; the precondition rules that out.
#[verifier::external_body]
pub(crate) fn duration_new(seconds: u64, nanos: u32) -> (duration: Duration)
    requires
        nanos < NANOS_PER_SECOND,
    ensures
        duration == duration_from_parts(seconds, nanos),
{
    Duration::new(seconds, nanos)
}

/// Calls `String::push`, which appends one character.
#[verifier::external_body]
pub(crate) fn string_push(text: &mut String, c: char)
    ensures
        final(text)@ == old(text)@.push(c),
{
    text.push(c)
}

/// Calls `Mutex::new` on a flag. Nothing is stated: the flag is shared state.
#[verifier::external_body]
pub(crate) fn new_flag(value: bool) -> Mutex<bool> {
    Mutex::new(value)
}

/// Locks the flag (recovering from poisoning as `PoisonError::into_inner`
/// does), stores `value` and returns the previous value. The flag is shared
/// with other threads, so nothing is stated about the previous value.
#[verifier::external_body]
pub(crate) fn replace_flag(flag: &Mutex<bool>, value: bool) -> bool {
    std::mem::replace(&mut *flag.lock().unwrap_or_else(PoisonError::into_inner), value)
}

/// Locks the flag and reads it. Nothing is stated: the flag is shared state.
#[verifier::external_body]
pub(crate) fn read_flag(flag: &Mutex<bool>) -> bool {
    *flag.lock().unwrap_or_else(PoisonError::into_inner)
}

/// Calls `Condvar::new`.
#[verifier::external_body]
pub(crate) fn new_condvar() -> Condvar {
    Condvar::new()
}

/// Calls `Condvar::notify_all`.
#[verifier::external_body]
pub(crate) fn notify_all(ready: &Condvar) {
    ready.notify_all()
}

/// Calls `Condvar::wait_timeout_while` until the flag is raised or `timeout`
/// elapses, then lowers the flag under the same lock and returns whether it
/// was raised. Whether it was depends on other threads and on time, so nothing
/// is stated about the result.
#[verifier::external_body]
pub(crate) fn wait_and_lower_flag(ready: &Condvar, flag: &Mutex<bool>, timeout: Duration) -> bool {
    let guard = flag.lock().unwrap_or_else(PoisonError::into_inner);
    let (mut guard, _) = ready.wait_timeout_while(guard, timeout, |raised| !*raised).unwrap_or_else(
        PoisonError::into_inner,
    );
    std::mem::replace(&mut *guard, false)
}

} // verus!
