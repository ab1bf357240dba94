//! Time arithmetic and caller identities, as the host database defines them.
//!
//! A time is a count of microseconds since the Unix epoch, which is how
//! `spacetimedb::Timestamp` holds it.

use vstd::prelude::*;

verus! {

/// The time `micros` microseconds before `now`, where that time is
/// representable.
pub open spec fn time_before(now: i64, micros: i64) -> Option<i64> {
    if i64::MIN <= now - micros <= i64::MAX {
        Some((now - micros) as i64)
    } else {
        None
    }
}

/// Relies on `spacetimedb::Timestamp::checked_sub` with a `TimeDuration` made
/// by `TimeDuration::from_micros`: the difference of the two microsecond counts,
/// or `None` where it leaves the range of `i64`.
#[verifier::external_body]
pub(crate) fn timestamp_minus(now: i64, micros: i64) -> (r: Option<i64>)
    ensures
        r == time_before(now, micros),
{
    spacetimedb::Timestamp::from_micros_since_unix_epoch(now)
        .checked_sub(spacetimedb::TimeDuration::from_micros(micros))
        .map(|t| t.to_micros_since_unix_epoch())
}

/// `spacetimedb::Identity`, the identity of a caller, carried through as an
/// opaque value.
#[verifier::external_type_specification]
#[verifier::external_body]
pub struct ExIdentity(spacetimedb::Identity);

/// Relies on the `PartialEq` that `spacetimedb::Identity` derives: two
/// identities compare equal exactly when they hold the same value.
#[verifier::external_body]
pub(crate) fn same_identity(a: &spacetimedb::Identity, b: &spacetimedb::Identity) -> (r: bool)
    ensures
        r == (*a == *b),
{
    *a == *b
}

} // verus!
