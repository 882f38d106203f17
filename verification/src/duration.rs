use vstd::prelude::*;

use crate::bignum::{bigint_to_i64, HostBigInt};
use crate::errors::ConvertedError;

verus! {

/// A duration in the protocol's three components: months, days and
/// nanoseconds, each signed.
pub struct DurationWrapper {
    pub months: i32,
    pub days: i32,
    pub nanoseconds: i64,
}

impl DurationWrapper {
    /// Builds a duration, taking the nanosecond component from a host big
    /// integer.  Fails exactly when that component overflows sixty-four
    /// bits.
    pub fn new(months: i32, days: i32, ns_bigint: &HostBigInt) -> (r: Result<
        DurationWrapper,
        ConvertedError,
    >)
        ensures
            match r {
                Ok(d) => {
                    &&& d.months == months
                    &&& d.days == days
                    &&& d.nanoseconds as int == ns_bigint.value()
                },
                Err(_) => !(-0x8000_0000_0000_0000 <= ns_bigint.value() <= 0x7fff_ffff_ffff_ffff),
            },
    {
        let nanoseconds = match bigint_to_i64(ns_bigint, "Nanoseconds must not overflow i64") {
            Ok(v) => v,
            Err(e) => {
                return Err(e);
            },
        };
        Ok(DurationWrapper { months, days, nanoseconds })
    }

    /// The nanosecond component as a host big integer.
    pub fn get_nanoseconds(&self) -> (r: HostBigInt)
        ensures
            r.value() == self.nanoseconds as int,
            r.canonical(),
    {
        HostBigInt::from_i64(self.nanoseconds)
    }

    /// Builds the wrapper from the driver's duration value.
    pub fn from_cql_duration(duration: scylla::value::CqlDuration) -> (r: Self)
        ensures
            r.months == duration.months,
            r.days == duration.days,
            r.nanoseconds == duration.nanoseconds,
    {
        DurationWrapper {
            months: duration.months,
            days: duration.days,
            nanoseconds: duration.nanoseconds,
        }
    }

    /// The driver's duration value.
    pub fn get_cql_duration(&self) -> (r: scylla::value::CqlDuration)
        ensures
            r.months == self.months,
            r.days == self.days,
            r.nanoseconds == self.nanoseconds,
    {
        scylla::value::CqlDuration {
            months: self.months,
            days: self.days,
            nanoseconds: self.nanoseconds,
        }
    }
}

} // verus!
