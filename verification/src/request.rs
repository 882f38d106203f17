use vstd::prelude::*;
use vstd::string::StringExecFns;

use crate::bignum::{bigint_to_i64, HostBigInt};
use crate::errors::ConvertedError;
use crate::text::append_number;

verus! {

/// The options a caller may attach to a statement, each optional.
pub struct QueryOptionsObj {
    pub auto_page: Option<bool>,
    pub capture_stack_trace: Option<bool>,
    pub consistency: Option<u16>,
    pub counter: Option<bool>,
    pub fetch_size: Option<i32>,
    pub is_idempotent: Option<bool>,
    pub keyspace: Option<String>,
    pub logged: Option<bool>,
    pub prepare: Option<bool>,
    pub read_timeout: Option<i32>,
    pub routing_indexes: Option<Vec<i32>>,
    pub routing_names: Option<Vec<String>>,
    pub serial_consistency: Option<i16>,
    pub timestamp: Option<HostBigInt>,
    pub trace_query: Option<bool>,
}

/// The options wrapper handed across the host boundary.
pub struct QueryOptionsWrapper {
    pub options: QueryOptionsObj,
}

impl QueryOptionsWrapper {
    pub fn new(options: QueryOptionsObj) -> (r: Self)
        ensures
            r.options == options,
    {
        QueryOptionsWrapper { options }
    }
}

/// The consistency levels the protocol defines, as their wire numbers.
pub open spec fn valid_consistency(c: u16) -> bool {
    c <= 10
}

/// The serial consistency levels the protocol defines.
pub open spec fn valid_serial_consistency(c: i16) -> bool {
    c == 8 || c == 9
}

/// The statement settings after validation, ready to apply to a driver
/// statement: every present field has been checked against its wire range.
pub struct ResolvedOptions {
    pub consistency: Option<u16>,
    pub serial_consistency: Option<i16>,
    pub is_idempotent: Option<bool>,
    pub timestamp: Option<i64>,
    pub trace_query: Option<bool>,
    pub fetch_size: Option<i32>,
}

/// Whether the options pass validation for a non-batch statement.
pub open spec fn statement_options_ok(o: QueryOptionsObj) -> bool {
    &&& match o.consistency {
        Some(c) => valid_consistency(c),
        None => true,
    }
    &&& match o.serial_consistency {
        Some(c) => valid_serial_consistency(c),
        None => true,
    }
    &&& match o.timestamp {
        Some(t) => -0x8000_0000_0000_0000 <= t.value() <= 0x7fff_ffff_ffff_ffff,
        None => true,
    }
    &&& match o.fetch_size {
        Some(f) => f >= 1,
        None => true,
    }
}

/// Validates the options of a non-batch statement: an unknown consistency or
/// serial consistency, a timestamp beyond sixty-four bits, and a
/// non-positive fetch size are each rejected; everything else passes
/// through unchanged.
pub fn resolve_statement_options(o: &QueryOptionsObj) -> (r: Result<ResolvedOptions, ConvertedError>)
    ensures
        match r {
            Ok(s) => {
                &&& statement_options_ok(*o)
                &&& s.consistency == o.consistency
                &&& s.serial_consistency == o.serial_consistency
                &&& s.is_idempotent == o.is_idempotent
                &&& s.trace_query == o.trace_query
                &&& s.fetch_size == o.fetch_size
                &&& match o.timestamp {
                    Some(t) => s.timestamp is Some && s.timestamp->0 as int == t.value(),
                    None => s.timestamp is None,
                }
            },
            Err(_) => !statement_options_ok(*o),
        },
{
    if let Some(c) = o.consistency {
        if c > 10 {
            let mut msg = String::new();
            msg.append("Unknown consistency value: ");
            append_number(&mut msg, c as u64);
            return Err(ConvertedError::new("Error", msg.as_str()));
        }
    }
    if let Some(c) = o.serial_consistency {
        if c != 8 && c != 9 {
            return Err(ConvertedError::new("Error", "Unknown serial consistency value"));
        }
    }
    let timestamp = match &o.timestamp {
        Some(t) => match bigint_to_i64(t, "Timestamp cannot overflow i64") {
            Ok(v) => Some(v),
            Err(e) => {
                return Err(e);
            },
        },
        None => None,
    };
    if let Some(f) = o.fetch_size {
        if f <= 0 {
            return Err(ConvertedError::new("Error", "fetch size must be a positive value"));
        }
    }
    Ok(
        ResolvedOptions {
            consistency: o.consistency,
            serial_consistency: o.serial_consistency,
            is_idempotent: o.is_idempotent,
            timestamp,
            trace_query: o.trace_query,
            fetch_size: o.fetch_size,
        },
    )
}

/// Validates the options of a batch: as for a statement, but a batch takes
/// no fetch size.
pub fn resolve_batch_options(o: &QueryOptionsObj) -> (r: Result<ResolvedOptions, ConvertedError>)
    ensures
        match r {
            Ok(s) => {
                &&& match o.consistency {
                    Some(c) => valid_consistency(c),
                    None => true,
                }
                &&& match o.serial_consistency {
                    Some(c) => valid_serial_consistency(c),
                    None => true,
                }
                &&& s.consistency == o.consistency
                &&& s.serial_consistency == o.serial_consistency
                &&& s.is_idempotent == o.is_idempotent
                &&& s.trace_query == o.trace_query
                &&& s.fetch_size is None
                &&& match o.timestamp {
                    Some(t) => s.timestamp is Some && s.timestamp->0 as int == t.value(),
                    None => s.timestamp is None,
                }
            },
            Err(_) => !(match o.consistency {
                Some(c) => valid_consistency(c),
                None => true,
            } && match o.serial_consistency {
                Some(c) => valid_serial_consistency(c),
                None => true,
            } && match o.timestamp {
                Some(t) => -0x8000_0000_0000_0000 <= t.value() <= 0x7fff_ffff_ffff_ffff,
                None => true,
            }),
        },
{
    if let Some(c) = o.consistency {
        if c > 10 {
            let mut msg = String::new();
            msg.append("Unknown consistency value: ");
            append_number(&mut msg, c as u64);
            return Err(ConvertedError::new("Error", msg.as_str()));
        }
    }
    if let Some(c) = o.serial_consistency {
        if c != 8 && c != 9 {
            return Err(ConvertedError::new("Error", "Unknown serial consistency value"));
        }
    }
    let timestamp = match &o.timestamp {
        Some(t) => match bigint_to_i64(t, "Timestamp cannot overflow i64") {
            Ok(v) => Some(v),
            Err(e) => {
                return Err(e);
            },
        },
        None => None,
    };
    Ok(
        ResolvedOptions {
            consistency: o.consistency,
            serial_consistency: o.serial_consistency,
            is_idempotent: o.is_idempotent,
            timestamp,
            trace_query: o.trace_query,
            fetch_size: None,
        },
    )
}

} // verus!
