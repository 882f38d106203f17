use vstd::prelude::*;

use crate::bignum::{twos_complement_value, varint_decode, HostBigInt};
use crate::calendar::{LocalDateWrapper, MAX_JS_DATE};
use crate::clock::{LocalTimeWrapper, NANOS_IN_DAY};
use crate::duration::DurationWrapper;
use crate::encode::be4_of_i32;
use crate::encode::be4_bytes;
use crate::errors::{CodecError, ErrorKind};
use crate::inet::{copy_bytes, InetAddressWrapper};

verus! {

/// A protocol-level column value: the closed set of variants the wire can
/// carry, with plain payloads.  Floating-point payloads are carried as their
/// raw bit patterns; the codec never interprets them.
pub enum ProtocolValue {
    Ascii(String),
    Boolean(bool),
    Blob(Vec<u8>),
    Counter(i64),
    /// Exponent and big-endian two's-complement magnitude bytes.
    Decimal(i32, Vec<u8>),
    /// Day count rebased so the epoch sits at the middle of the range.
    Date(u32),
    /// A 64-bit float as its raw bits.
    Double(u64),
    Duration(i32, i32, i64),
    /// The legacy empty value, distinct from null.
    Empty,
    /// A 32-bit float as its raw bits.
    Float(u32),
    Int(i32),
    BigInt(i64),
    Text(String),
    /// Milliseconds since the epoch.
    Timestamp(i64),
    /// Four or sixteen address octets.
    Inet(Vec<u8>),
    List(Vec<ProtocolValue>),
    MapValue(Vec<(ProtocolValue, ProtocolValue)>),
    SetValue(Vec<ProtocolValue>),
    Udt { keyspace: String, name: String, fields: Vec<(String, Option<ProtocolValue>)> },
    SmallInt(i16),
    TinyInt(i8),
    /// Nanoseconds since midnight.
    Time(i64),
    Timeuuid(Vec<u8>),
    Tuple(Vec<Option<ProtocolValue>>),
    Uuid(Vec<u8>),
    /// Big-endian two's-complement bytes.
    Varint(Vec<u8>),
    Vector(Vec<ProtocolValue>),
}

/// A host-representable value: the small set of primitive kinds plus
/// ordered lists, key-value pair lists, tuples and named-field records.
pub enum HostValue {
    Text(String),
    Bool(bool),
    Buffer(Vec<u8>),
    BigInt(HostBigInt),
    Int(i32),
    SmallInt(i16),
    TinyInt(i8),
    DoubleBits(u64),
    FloatBits(u32),
    Date(LocalDateWrapper),
    Time(LocalTimeWrapper),
    Duration(DurationWrapper),
    Inet(InetAddressWrapper),
    List(Vec<HostValue>),
    Pairs(Vec<(HostValue, HostValue)>),
    Tuple(Vec<Option<HostValue>>),
    Record(Vec<(String, Option<HostValue>)>),
}

/// What decoding a protocol value must produce.  `Ok` pins the host value
/// variant by variant; `Err(k)` holds when the value itself, or in a
/// composite some element of it, fails with kind `k` (the decoder reports
/// the first such element).  Failures are: the empty value has no mapping,
/// an address must have four or sixteen octets, and a time must lie within
/// one day.
pub open spec fn decode_rel(v: ProtocolValue, r: Result<HostValue, ErrorKind>) -> bool
    decreases v,
{
    match v {
        ProtocolValue::Ascii(s) => match r {
            Ok(HostValue::Text(t)) => t@ == s@,
            _ => false,
        },
        ProtocolValue::Boolean(b) => r == Ok::<HostValue, ErrorKind>(HostValue::Bool(b)),
        ProtocolValue::Blob(b) => match r {
            Ok(HostValue::Buffer(t)) => t@ == b@,
            _ => false,
        },
        ProtocolValue::Counter(x) => match r {
            Ok(HostValue::BigInt(h)) => h.value() == x as int && h.canonical(),
            _ => false,
        },
        ProtocolValue::Decimal(e, m) => match r {
            Ok(HostValue::Buffer(t)) => t@ == be4_of_i32(e as int) + m@,
            _ => false,
        },
        ProtocolValue::Date(d) => match r {
            Ok(HostValue::Date(w)) => {
                &&& w.wf()
                &&& w.value as int == d as int - 2_147_483_648
                &&& (w.date is Some <==> -MAX_JS_DATE <= d as int - 2_147_483_648 <= MAX_JS_DATE)
            },
            _ => false,
        },
        ProtocolValue::Double(bits) => r == Ok::<HostValue, ErrorKind>(HostValue::DoubleBits(bits)),
        ProtocolValue::Duration(mo, da, ns) => match r {
            Ok(HostValue::Duration(w)) => w.months == mo && w.days == da && w.nanoseconds == ns,
            _ => false,
        },
        ProtocolValue::Empty => r == Err::<HostValue, ErrorKind>(ErrorKind::UnsupportedType),
        ProtocolValue::Float(bits) => r == Ok::<HostValue, ErrorKind>(HostValue::FloatBits(bits)),
        ProtocolValue::Int(x) => r == Ok::<HostValue, ErrorKind>(HostValue::Int(x)),
        ProtocolValue::BigInt(x) => match r {
            Ok(HostValue::BigInt(h)) => h.value() == x as int && h.canonical(),
            _ => false,
        },
        ProtocolValue::Text(s) => match r {
            Ok(HostValue::Text(t)) => t@ == s@,
            _ => false,
        },
        ProtocolValue::Timestamp(x) => match r {
            Ok(HostValue::BigInt(h)) => h.value() == x as int && h.canonical(),
            _ => false,
        },
        ProtocolValue::Inet(b) => if b@.len() == 4 || b@.len() == 16 {
            match r {
                Ok(HostValue::Inet(w)) => w.bytes@ == b@,
                _ => false,
            }
        } else {
            r == Err::<HostValue, ErrorKind>(ErrorKind::Protocol)
        },
        ProtocolValue::List(vs) => match r {
            Ok(HostValue::List(rs)) => rs@.len() == vs@.len() && (forall|i: int|
                0 <= i < vs@.len() ==> decode_rel(#[trigger] vs@[i], Ok(rs@[i]))),
            Err(k) => exists|i: int| 0 <= i < vs@.len() && decode_rel(#[trigger] vs@[i], Err(k)),
            _ => false,
        },
        ProtocolValue::MapValue(ps) => match r {
            Ok(HostValue::Pairs(rs)) => rs@.len() == ps@.len() && (forall|i: int|
                0 <= i < ps@.len() ==> decode_rel((#[trigger] ps@[i]).0, Ok(rs@[i].0))
                    && decode_rel(ps@[i].1, Ok(rs@[i].1))),
            Err(k) => exists|i: int|
                0 <= i < ps@.len() && (decode_rel((#[trigger] ps@[i]).0, Err(k)) || decode_rel(
                    ps@[i].1,
                    Err(k),
                )),
            _ => false,
        },
        ProtocolValue::SetValue(vs) => match r {
            Ok(HostValue::List(rs)) => rs@.len() == vs@.len() && (forall|i: int|
                0 <= i < vs@.len() ==> decode_rel(#[trigger] vs@[i], Ok(rs@[i]))),
            Err(k) => exists|i: int| 0 <= i < vs@.len() && decode_rel(#[trigger] vs@[i], Err(k)),
            _ => false,
        },
        ProtocolValue::Udt { keyspace, name, fields } => match r {
            Ok(HostValue::Record(rs)) => rs@.len() == fields@.len() && (forall|i: int|
                0 <= i < fields@.len() ==> (#[trigger] rs@[i]).0@ == fields@[i].0@ && (match fields@[i].1 {
                    Option::None => rs@[i].1 is None,
                    Option::Some(pv) => rs@[i].1 is Some && decode_rel(pv, Ok(rs@[i].1->0)),
                })),
            Err(k) => exists|i: int|
                0 <= i < fields@.len() && (#[trigger] fields@[i]).1 is Some && decode_rel(
                    fields@[i].1->0,
                    Err(k),
                ),
            _ => false,
        },
        ProtocolValue::SmallInt(x) => r == Ok::<HostValue, ErrorKind>(HostValue::SmallInt(x)),
        ProtocolValue::TinyInt(x) => r == Ok::<HostValue, ErrorKind>(HostValue::TinyInt(x)),
        ProtocolValue::Time(t) => if 0 <= t < NANOS_IN_DAY {
            match r {
                Ok(HostValue::Time(w)) => w.wf() && w.ns_value == t,
                _ => false,
            }
        } else {
            r == Err::<HostValue, ErrorKind>(ErrorKind::Range)
        },
        ProtocolValue::Timeuuid(b) => match r {
            Ok(HostValue::Buffer(t)) => t@ == b@,
            _ => false,
        },
        ProtocolValue::Tuple(vs) => match r {
            Ok(HostValue::Tuple(rs)) => rs@.len() == vs@.len() && (forall|i: int|
                0 <= i < vs@.len() ==> (match #[trigger] vs@[i] {
                    Option::None => rs@[i] is None,
                    Option::Some(pv) => rs@[i] is Some && decode_rel(pv, Ok(rs@[i]->0)),
                })),
            Err(k) => exists|i: int|
                0 <= i < vs@.len() && (#[trigger] vs@[i]) is Some && decode_rel(vs@[i]->0, Err(k)),
            _ => false,
        },
        ProtocolValue::Uuid(b) => match r {
            Ok(HostValue::Buffer(t)) => t@ == b@,
            _ => false,
        },
        ProtocolValue::Varint(b) => match r {
            Ok(HostValue::BigInt(h)) => h.value() == twos_complement_value(b@) && h.canonical(),
            _ => false,
        },
        ProtocolValue::Vector(vs) => match r {
            Ok(HostValue::List(rs)) => rs@.len() == vs@.len() && (forall|i: int|
                0 <= i < vs@.len() ==> decode_rel(#[trigger] vs@[i], Ok(rs@[i]))),
            Err(k) => exists|i: int| 0 <= i < vs@.len() && decode_rel(#[trigger] vs@[i], Err(k)),
            _ => false,
        },
    }
}

/// A protocol value on its way to the host.
pub struct CqlValueWrapper {
    pub inner: ProtocolValue,
}

impl CqlValueWrapper {
    /// Decodes the wrapped protocol value into its host representation.
    pub fn decode(&self) -> (r: Result<HostValue, CodecError>)
        ensures
            match r {
                Ok(h) => decode_rel(self.inner, Ok(h)),
                Err(e) => decode_rel(self.inner, Err(e.kind)),
            },
    {
        decode_value(&self.inner)
    }
}

/// Decodes one protocol value into its host representation, recursively for
/// composites; a failing element aborts the whole composite.
#[verifier::loop_isolation(false)]
pub fn decode_value(v: &ProtocolValue) -> (r: Result<HostValue, CodecError>)
    ensures
        match r {
            Ok(h) => decode_rel(*v, Ok(h)),
            Err(e) => decode_rel(*v, Err(e.kind)),
        },
    decreases *v,
{
    match v {
        ProtocolValue::Ascii(s) => Ok(HostValue::Text(s.clone())),
        ProtocolValue::Boolean(b) => Ok(HostValue::Bool(*b)),
        ProtocolValue::Blob(b) => Ok(HostValue::Buffer(copy_bytes(b.as_slice()))),
        ProtocolValue::Counter(x) => Ok(HostValue::BigInt(HostBigInt::from_i64(*x))),
        ProtocolValue::Decimal(e, m) => {
            let mut out = be4_bytes(*e);
            let mut tail = copy_bytes(m.as_slice());
            out.append(&mut tail);
            proof {
                assert(out@ =~= be4_of_i32(*e as int) + m@);
            }
            Ok(HostValue::Buffer(out))
        },
        ProtocolValue::Date(d) => Ok(
            HostValue::Date(LocalDateWrapper::from_cql_date(scylla::value::CqlDate(*d))),
        ),
        ProtocolValue::Double(bits) => Ok(HostValue::DoubleBits(*bits)),
        ProtocolValue::Duration(mo, da, ns) => Ok(
            HostValue::Duration(
                DurationWrapper::from_cql_duration(
                    scylla::value::CqlDuration { months: *mo, days: *da, nanoseconds: *ns },
                ),
            ),
        ),
        ProtocolValue::Empty => Err(
            CodecError::new(ErrorKind::UnsupportedType, "the empty value has no host mapping"),
        ),
        ProtocolValue::Float(bits) => Ok(HostValue::FloatBits(*bits)),
        ProtocolValue::Int(x) => Ok(HostValue::Int(*x)),
        ProtocolValue::BigInt(x) => Ok(HostValue::BigInt(HostBigInt::from_i64(*x))),
        ProtocolValue::Text(s) => Ok(HostValue::Text(s.clone())),
        ProtocolValue::Timestamp(x) => Ok(HostValue::BigInt(HostBigInt::from_i64(*x))),
        ProtocolValue::Inet(b) => match InetAddressWrapper::new(b.as_slice()) {
            Ok(w) => Ok(HostValue::Inet(w)),
            Err(_) => Err(
                CodecError::new(
                    ErrorKind::Protocol,
                    "inet address must be four or sixteen octets",
                ),
            ),
        },
        ProtocolValue::List(vs) => match decode_elements(vs) {
            Ok(rs) => Ok(HostValue::List(rs)),
            Err(e) => Err(e),
        },
        ProtocolValue::SetValue(vs) => match decode_elements(vs) {
            Ok(rs) => Ok(HostValue::List(rs)),
            Err(e) => Err(e),
        },
        ProtocolValue::Vector(vs) => match decode_elements(vs) {
            Ok(rs) => Ok(HostValue::List(rs)),
            Err(e) => Err(e),
        },
        ProtocolValue::MapValue(ps) => {
            let mut out: Vec<(HostValue, HostValue)> = Vec::new();
            let mut i: usize = 0;
            while i < ps.len()
                invariant
                    0 <= i <= ps@.len(),
                    out@.len() == i,
                    forall|j: int|
                        0 <= j < i ==> decode_rel((#[trigger] ps@[j]).0, Ok(out@[j].0))
                            && decode_rel(ps@[j].1, Ok(out@[j].1)),
                decreases ps@.len() - i,
            {
                proof {
                    assert(decreases_to!(*v => *ps));
                    assert(decreases_to!(*ps => ps@));
                    assert(decreases_to!(ps@ => ps@[i as int]));
                    assert(decreases_to!(ps@[i as int] => ps@[i as int].0));
                    assert(decreases_to!(ps@[i as int] => ps@[i as int].1));
                }
                let k = match decode_value(&ps[i].0) {
                    Ok(h) => h,
                    Err(e) => {
                        proof {
                            assert(decode_rel(ps@[i as int].0, Err(e.kind)));
                        }
                        return Err(e);
                    },
                };
                let val = match decode_value(&ps[i].1) {
                    Ok(h) => h,
                    Err(e) => {
                        proof {
                            assert(decode_rel(ps@[i as int].1, Err(e.kind)));
                        }
                        return Err(e);
                    },
                };
                out.push((k, val));
                i = i + 1;
            }
            Ok(HostValue::Pairs(out))
        },
        ProtocolValue::Udt { keyspace: _, name: _, fields } => {
            let mut out: Vec<(String, Option<HostValue>)> = Vec::new();
            let mut i: usize = 0;
            while i < fields.len()
                invariant
                    0 <= i <= fields@.len(),
                    out@.len() == i,
                    forall|j: int|
                        0 <= j < i ==> (#[trigger] out@[j]).0@ == fields@[j].0@ && (
                        match fields@[j].1 {
                            Option::None => out@[j].1 is None,
                            Option::Some(pv) => out@[j].1 is Some && decode_rel(
                                pv,
                                Ok(out@[j].1->0),
                            ),
                        }),
                decreases fields@.len() - i,
            {
                proof {
                    assert(decreases_to!(*v => *fields));
                    assert(decreases_to!(*fields => fields@));
                    assert(decreases_to!(fields@ => fields@[i as int]));
                    assert(decreases_to!(fields@[i as int] => fields@[i as int].1));
                    if fields@[i as int].1 is Some {
                        assert(decreases_to!(fields@[i as int].1 => fields@[i as int].1->0));
                    }
                }
                let fname = fields[i].0.clone();
                let fval = match &fields[i].1 {
                    Option::None => Option::None,
                    Option::Some(pv) => match decode_value(pv) {
                        Ok(h) => Option::Some(h),
                        Err(e) => {
                            proof {
                                assert(fields@[i as int].1 is Some && decode_rel(
                                    fields@[i as int].1->0,
                                    Err(e.kind),
                                ));
                            }
                            return Err(e);
                        },
                    },
                };
                out.push((fname, fval));
                i = i + 1;
            }
            Ok(HostValue::Record(out))
        },
        ProtocolValue::SmallInt(x) => Ok(HostValue::SmallInt(*x)),
        ProtocolValue::TinyInt(x) => Ok(HostValue::TinyInt(*x)),
        ProtocolValue::Time(t) => {
            if 0 <= *t && *t < NANOS_IN_DAY {
                Ok(HostValue::Time(LocalTimeWrapper::from_cql_time(scylla::value::CqlTime(*t))))
            } else {
                Err(CodecError::new(ErrorKind::Range, "time of day out of range"))
            }
        },
        ProtocolValue::Timeuuid(b) => Ok(HostValue::Buffer(copy_bytes(b.as_slice()))),
        ProtocolValue::Tuple(vs) => {
            let mut out: Vec<Option<HostValue>> = Vec::new();
            let mut i: usize = 0;
            while i < vs.len()
                invariant
                    0 <= i <= vs@.len(),
                    out@.len() == i,
                    forall|j: int|
                        0 <= j < i ==> (match #[trigger] vs@[j] {
                            Option::None => out@[j] is None,
                            Option::Some(pv) => out@[j] is Some && decode_rel(pv, Ok(out@[j]->0)),
                        }),
                decreases vs@.len() - i,
            {
                proof {
                    assert(decreases_to!(*v => *vs));
                    assert(decreases_to!(*vs => vs@));
                    assert(decreases_to!(vs@ => vs@[i as int]));
                    if vs@[i as int] is Some {
                        assert(decreases_to!(vs@[i as int] => vs@[i as int]->0));
                    }
                }
                let item = match &vs[i] {
                    Option::None => Option::None,
                    Option::Some(pv) => match decode_value(pv) {
                        Ok(h) => Option::Some(h),
                        Err(e) => {
                            proof {
                                assert((vs@[i as int]) is Some && decode_rel(
                                    vs@[i as int]->0,
                                    Err(e.kind),
                                ));
                            }
                            return Err(e);
                        },
                    },
                };
                out.push(item);
                i = i + 1;
            }
            Ok(HostValue::Tuple(out))
        },
        ProtocolValue::Uuid(b) => Ok(HostValue::Buffer(copy_bytes(b.as_slice()))),
        ProtocolValue::Varint(b) => Ok(HostValue::BigInt(varint_decode(b.as_slice()))),
    }
}

/// Decodes the elements of an ordered collection, preserving their order; a
/// failing element aborts the whole collection.
fn decode_elements(vs: &Vec<ProtocolValue>) -> (r: Result<Vec<HostValue>, CodecError>)
    ensures
        match r {
            Ok(rs) => rs@.len() == vs@.len() && (forall|i: int|
                0 <= i < vs@.len() ==> decode_rel(#[trigger] vs@[i], Ok(rs@[i]))),
            Err(e) => exists|i: int|
                0 <= i < vs@.len() && decode_rel(#[trigger] vs@[i], Err(e.kind)),
        },
    decreases vs@,
{
    let mut out: Vec<HostValue> = Vec::new();
    let mut i: usize = 0;
    while i < vs.len()
        invariant
            0 <= i <= vs@.len(),
            out@.len() == i,
            forall|j: int| 0 <= j < i ==> decode_rel(#[trigger] vs@[j], Ok(out@[j])),
        decreases vs@.len() - i,
    {
        match decode_value(&vs[i]) {
            Ok(h) => out.push(h),
            Err(e) => {
                proof {
                    assert(decode_rel(vs@[i as int], Err(e.kind)));
                }
                return Err(e);
            },
        }
        i = i + 1;
    }
    Ok(out)
}

/// The record-shape law: decoding a named-field record preserves the field
/// names, their order, and the null positions exactly.
pub proof fn lemma_record_decode_shape(
    keyspace: String,
    name: String,
    fields: Vec<(String, Option<ProtocolValue>)>,
    rs: Vec<(String, Option<HostValue>)>,
)
    requires
        decode_rel(
            ProtocolValue::Udt { keyspace, name, fields },
            Ok(HostValue::Record(rs)),
        ),
    ensures
        rs@.len() == fields@.len(),
        forall|i: int| 0 <= i < fields@.len() ==> (#[trigger] rs@[i]).0@ == fields@[i].0@,
        forall|i: int|
            0 <= i < fields@.len() ==> ((#[trigger] rs@[i]).1 is Some <==> fields@[i].1 is Some),
{
}

/// The order-shape law of ordered collections: decoding a list keeps its
/// length and decodes each position in place.
pub proof fn lemma_list_decode_shape(vs: Vec<ProtocolValue>, rs: Vec<HostValue>)
    requires
        decode_rel(ProtocolValue::List(vs), Ok(HostValue::List(rs))),
    ensures
        rs@.len() == vs@.len(),
        forall|i: int| 0 <= i < vs@.len() ==> decode_rel(#[trigger] vs@[i], Ok(rs@[i])),
{
}

} // verus!
