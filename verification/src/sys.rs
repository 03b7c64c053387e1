use vstd::prelude::*;

verus! {

/// Calls `chrono::Utc::now()` and takes `timestamp()`: the current Unix time in
/// whole seconds. It depends on the clock, so nothing is promised of it.
#[verifier::external_body]
pub(crate) fn now_ts() -> i64 {
    chrono::Utc::now().timestamp()
}

/// Calls `rand::random::<i64>()`: a value from the thread-local generator.
/// It depends on chance, so nothing is promised of it.
#[verifier::external_body]
pub(crate) fn random_i64() -> i64 {
    rand::random::<i64>()
}

} // verus!
