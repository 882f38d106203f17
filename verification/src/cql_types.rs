use vstd::prelude::*;

verus! {

// The driver's plain value newtypes, declared so that verified code can
// build and read them directly.  Their fields are public integers, so the
// declarations expose them to the verifier as they are.

#[verifier::external_type_specification]
pub struct ExCqlDate(scylla::value::CqlDate);

#[verifier::external_type_specification]
pub struct ExCqlTime(scylla::value::CqlTime);

#[verifier::external_type_specification]
pub struct ExCqlTimestamp(scylla::value::CqlTimestamp);

#[verifier::external_type_specification]
pub struct ExCqlDuration(scylla::value::CqlDuration);

} // verus!
