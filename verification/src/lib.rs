//! Verified codec and paging-control core for a CQL driver binding.
//!
//! The crate decodes protocol-level column values into plain host values,
//! encodes host-supplied bytes back into protocol cells, converts the two
//! "hard" temporal types (extended-range calendar dates and nanosecond
//! times of day), handles exact-precision numbers (decimal and
//! variable-length integer), and models the continuation-token lifecycle
//! of multi-page queries.

pub mod bignum;
pub mod calendar;
pub mod text;
pub mod clock;
pub mod cql_types;
pub mod duration;
pub mod encode;
pub mod errors;
pub mod inet;
pub mod paging;
pub mod request;
pub mod result;
pub mod utils;
pub mod uuid_val;
pub mod value;
