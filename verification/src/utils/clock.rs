//! Wall-clock access, the only place where the library asks for the time.

use vstd::prelude::*;

verus! {

/// Relies on chrono's `Utc::now`, reduced to plain seconds with
/// `DateTime::timestamp`. The clock can return anything, so nothing is
/// assumed of the value; callers state what holds of their result whatever
/// time comes back.
#[verifier::external_body]
pub(crate) fn now_timestamp() -> i64 {
    chrono::Utc::now().timestamp()
}

} // verus!
