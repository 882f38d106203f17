use vstd::prelude::*;
use vstd::arithmetic::div_mod::lemma_fundamental_div_mod;

use crate::errors::{CodecError, ErrorKind};
use crate::inet::copy_bytes;

verus! {

/// The four big-endian bytes of a signed 32-bit number.
pub open spec fn be4_of_i32(e: int) -> Seq<u8> {
    let u = if e < 0 {
        e + 0x1_0000_0000
    } else {
        e
    };
    seq![
        (u / 0x100_0000 % 256) as u8,
        (u / 0x1_0000 % 256) as u8,
        (u / 0x100 % 256) as u8,
        (u % 256) as u8,
    ]
}

/// Writes a signed 32-bit number as four big-endian bytes.
pub fn be4_bytes(e: i32) -> (r: Vec<u8>)
    ensures
        r@ == be4_of_i32(e as int),
{
    let u: u32 = if e >= 0 {
        e as u32
    } else {
        ((e as i64) + 0x1_0000_0000) as u32
    };
    proof {
        lemma_fundamental_div_mod(u as int, 0x100_0000);
        lemma_fundamental_div_mod(u as int, 0x1_0000);
        lemma_fundamental_div_mod(u as int, 0x100);
        lemma_fundamental_div_mod(u as int / 0x100_0000, 256);
        lemma_fundamental_div_mod(u as int / 0x1_0000, 256);
        lemma_fundamental_div_mod(u as int / 0x100, 256);
    }
    let mut r: Vec<u8> = Vec::new();
    r.push((u / 0x100_0000 % 256) as u8);
    r.push((u / 0x1_0000 % 256) as u8);
    r.push((u / 0x100 % 256) as u8);
    r.push((u % 256) as u8);
    proof {
        assert(r@ =~= be4_of_i32(e as int));
    }
    r
}

/// A value handed down for a write: concrete cell bytes, an explicit null,
/// or the unset marker that leaves a column untouched.
pub enum MaybeUnsetNullableValue {
    Value(Vec<u8>),
    Null,
    Unset,
}

/// The encoder's input for one bound parameter.
pub struct EncodedValuesWrapper {
    pub inner: MaybeUnsetNullableValue,
}

impl EncodedValuesWrapper {
    /// Wraps concrete cell bytes.
    pub fn from_bytes(bytes: Vec<u8>) -> (r: Self)
        ensures
            r.inner == MaybeUnsetNullableValue::Value(bytes),
    {
        EncodedValuesWrapper { inner: MaybeUnsetNullableValue::Value(bytes) }
    }

    /// Wraps the explicit null: the column is overwritten with no value.
    pub fn null() -> (r: Self)
        ensures
            r.inner == MaybeUnsetNullableValue::Null,
    {
        EncodedValuesWrapper { inner: MaybeUnsetNullableValue::Null }
    }

    /// Wraps the unset marker: the column keeps its previous value.
    pub fn unset() -> (r: Self)
        ensures
            r.inner == MaybeUnsetNullableValue::Unset,
    {
        EncodedValuesWrapper { inner: MaybeUnsetNullableValue::Unset }
    }

    /// The wire cell this value serializes to: a four-byte big-endian length
    /// prefix followed by the bytes, or the null (-1) / unset (-2) marker.
    pub open spec fn cell_spec(&self) -> Seq<u8> {
        match self.inner {
            MaybeUnsetNullableValue::Value(b) => be4_of_i32(b@.len() as int) + b@,
            MaybeUnsetNullableValue::Null => be4_of_i32(-1),
            MaybeUnsetNullableValue::Unset => be4_of_i32(-2),
        }
    }

    /// Serializes the value into its wire cell.  Fails exactly when the
    /// bytes are too long for the cell's signed length prefix.
    pub fn serialize(&self) -> (r: Result<Vec<u8>, CodecError>)
        ensures
            match r {
                Ok(out) => {
                    &&& out@ == self.cell_spec()
                    &&& match self.inner {
                        MaybeUnsetNullableValue::Value(b) => b@.len() <= 0x7fff_ffff,
                        _ => true,
                    }
                },
                Err(e) => {
                    &&& e.kind == ErrorKind::Overflow
                    &&& match self.inner {
                        MaybeUnsetNullableValue::Value(b) => b@.len() > 0x7fff_ffff,
                        _ => false,
                    }
                },
            },
    {
        match &self.inner {
            MaybeUnsetNullableValue::Value(b) => {
                if b.len() > 0x7fff_ffff {
                    return Err(
                        CodecError::new(
                            ErrorKind::Overflow,
                            "cell value too long for its length prefix",
                        ),
                    );
                }
                let mut out = be4_bytes(b.len() as i32);
                let mut tail = copy_bytes(b.as_slice());
                out.append(&mut tail);
                proof {
                    assert(out@ =~= self.cell_spec());
                }
                Ok(out)
            },
            MaybeUnsetNullableValue::Null => Ok(be4_bytes(-1)),
            MaybeUnsetNullableValue::Unset => Ok(be4_bytes(-2)),
        }
    }
}

} // verus!
