//! The one place where the library reads the wall clock.

use vstd::prelude::*;

verus! {

/// Relies on std::time::SystemTime::now (read through duration_since and
/// Duration::as_millis): the current instant, in whole milliseconds since the
/// Unix epoch. Nothing is promised of the value: the clock may jump, and two
/// reads may return anything. Callers must hold for every value it returns.
#[verifier::external_body]
pub(crate) fn now_millis() -> u64 {
    std::time::SystemTime::now()
        .duration_since(std::time::UNIX_EPOCH)
        .map(|d| d.as_millis() as u64)
        .unwrap_or(0)
}

/// Relies on std::sync::Condvar::wait_timeout: parks the calling thread for
/// about `ms` milliseconds. Nothing is promised: the wait may end early (a
/// spurious wake) or late (scheduling), as with any timed wait.
#[verifier::external_body]
pub(crate) fn sleep_millis(ms: u64) {
    let gate = (std::sync::Mutex::new(()), std::sync::Condvar::new());
    let guard = gate.0.lock().unwrap();
    let _ = gate.1.wait_timeout(guard, core::time::Duration::from_millis(ms));
}

} // verus!
