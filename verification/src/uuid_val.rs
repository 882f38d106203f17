use vstd::prelude::*;

use crate::errors::ConvertedError;

verus! {

// The identifier type of the uuid crate, declared opaquely; its sixteen
// bytes are reached only through the trusted accessors below.
#[verifier::external_type_specification]
#[verifier::external_body]
pub struct ExUuid(uuid::Uuid);

/// The sixteen bytes a uuid value holds.
pub uninterp spec fn uuid_bytes(u: uuid::Uuid) -> Seq<u8>;

/// Relies on uuid::Uuid::from_slice: succeeds exactly on a sixteen-byte
/// slice, storing those bytes.
#[verifier::external_body]
fn uuid_from_slice(b: &[u8]) -> (r: Option<uuid::Uuid>)
    ensures
        match r {
            Some(u) => b@.len() == 16 && uuid_bytes(u) == b@,
            None => b@.len() != 16,
        },
{
    uuid::Uuid::from_slice(b).ok()
}

/// Relies on uuid::Uuid::as_bytes: returns the sixteen stored bytes.
#[verifier::external_body]
fn uuid_to_bytes(u: &uuid::Uuid) -> (r: Vec<u8>)
    ensures
        r@ == uuid_bytes(*u),
        r@.len() == 16,
{
    u.as_bytes().to_vec()
}

/// A universally unique identifier.
pub struct UuidWrapper {
    pub uuid: uuid::Uuid,
}

impl UuidWrapper {
    /// Builds an identifier from a buffer.  Accepts exactly sixteen bytes.
    pub fn new(buffer: &[u8]) -> (r: Result<UuidWrapper, ConvertedError>)
        ensures
            match r {
                Ok(w) => buffer@.len() == 16 && uuid_bytes(w.uuid) == buffer@,
                Err(e) => buffer@.len() != 16 && e.name_spec() == "Error"@,
            },
    {
        match uuid_from_slice(buffer) {
            Some(uuid) => Ok(UuidWrapper { uuid }),
            None => Err(ConvertedError::new("Error", "Invalid uuid buffer")),
        }
    }

    /// The sixteen bytes of the identifier.
    pub fn get_buffer(&self) -> (r: Vec<u8>)
        ensures
            r@ == uuid_bytes(self.uuid),
            r@.len() == 16,
    {
        uuid_to_bytes(&self.uuid)
    }

    /// Wraps the driver's identifier value.
    pub fn from_cql_uuid(uuid: uuid::Uuid) -> (r: Self)
        ensures
            r.uuid == uuid,
    {
        UuidWrapper { uuid }
    }

    /// The driver's identifier value.
    pub fn get_cql_uuid(&self) -> (r: uuid::Uuid)
        ensures
            r == self.uuid,
    {
        self.uuid
    }
}

/// Relies on uuid::Uuid::new_v4: a freshly generated random identifier; only
/// its length holds of every outcome.
#[verifier::external_body]
pub fn get_random_uuid_v4() -> (r: Vec<u8>)
    ensures
        r@.len() == 16,
{
    uuid::Uuid::new_v4().as_bytes().to_vec()
}

} // verus!
