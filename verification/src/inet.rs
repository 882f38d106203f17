use vstd::prelude::*;

use crate::errors::ConvertedError;

verus! {

/// An internet address held as its raw octets: four for version four,
/// sixteen for version six.
pub struct InetAddressWrapper {
    pub bytes: Vec<u8>,
}

impl InetAddressWrapper {
    /// The octet count is one of the two address lengths.
    pub open spec fn wf(&self) -> bool {
        self.bytes@.len() == 4 || self.bytes@.len() == 16
    }

    /// Builds an address from its octets.  Accepts exactly a four- or
    /// sixteen-byte buffer.
    pub fn new(buffer: &[u8]) -> (r: Result<InetAddressWrapper, ConvertedError>)
        ensures
            match r {
                Ok(w) => {
                    &&& (buffer@.len() == 4 || buffer@.len() == 16)
                    &&& w.bytes@ == buffer@
                    &&& w.wf()
                },
                Err(e) => {
                    &&& !(buffer@.len() == 4 || buffer@.len() == 16)
                    &&& e.name_spec() == "TypeError"@
                },
            },
    {
        if buffer.len() == 4 || buffer.len() == 16 {
            Ok(InetAddressWrapper { bytes: copy_bytes(buffer) })
        } else {
            Err(ConvertedError::new("TypeError", "Invalid IP address length"))
        }
    }

    /// The length of the address in octets.
    pub fn get_length(&self) -> (r: u32)
        requires
            self.wf(),
        ensures
            r == self.bytes@.len(),
    {
        self.bytes.len() as u32
    }

    /// The address version: four or six.
    pub fn get_version(&self) -> (r: u32)
        requires
            self.wf(),
        ensures
            r == (if self.bytes@.len() == 4 {
                4int
            } else {
                6int
            }),
    {
        if self.bytes.len() == 4 {
            4
        } else {
            6
        }
    }

    /// The octets of the address.
    pub fn get_buffer(&self) -> (r: Vec<u8>)
        ensures
            r@ == self.bytes@,
    {
        copy_bytes(self.bytes.as_slice())
    }
}

/// Copies a byte slice into a fresh vector.
pub fn copy_bytes(b: &[u8]) -> (r: Vec<u8>)
    ensures
        r@ == b@,
{
    let mut r: Vec<u8> = Vec::new();
    let mut i: usize = 0;
    while i < b.len()
        invariant
            0 <= i <= b@.len(),
            r@ =~= b@.take(i as int),
        decreases b@.len() - i,
    {
        r.push(b[i]);
        proof {
            assert(r@ =~= b@.take(i as int + 1));
        }
        i = i + 1;
    }
    proof {
        assert(b@.take(b@.len() as int) =~= b@);
    }
    r
}

} // verus!
