use vstd::prelude::*;

use crate::value::ProtocolValue;

verus! {

/// The tags of the protocol's column types.
#[derive(Clone, Copy, PartialEq, Eq, Structural, Debug)]
pub enum CqlTypeTag {
    Ascii,
    Boolean,
    Blob,
    Counter,
    Decimal,
    Date,
    Double,
    Duration,
    Float,
    Int,
    BigInt,
    Text,
    Timestamp,
    Inet,
    ListType,
    MapType,
    SetType,
    UdtType,
    SmallInt,
    TinyInt,
    Time,
    Timeuuid,
    TupleType,
    Uuid,
    Varint,
    VectorType,
}

/// A column-type descriptor: a tag, with sub-type descriptors for the
/// composite kinds.
pub struct ComplexType {
    pub tag: CqlTypeTag,
    pub subtypes: Vec<ComplexType>,
}

/// Structural equality of column-type descriptors.
pub open spec fn same_type(a: ComplexType, b: ComplexType) -> bool
    decreases a,
{
    &&& a.tag == b.tag
    &&& a.subtypes@.len() == b.subtypes@.len()
    &&& forall|i: int|
        0 <= i < a.subtypes@.len() ==> same_type(#[trigger] a.subtypes@[i], b.subtypes@[i])
}

/// Copies a column-type descriptor.
#[verifier::loop_isolation(false)]
pub fn clone_complex_type(t: &ComplexType) -> (r: ComplexType)
    ensures
        same_type(r, *t),
    decreases *t,
{
    let mut subtypes: Vec<ComplexType> = Vec::new();
    let mut i: usize = 0;
    while i < t.subtypes.len()
        invariant
            0 <= i <= t.subtypes@.len(),
            subtypes@.len() == i,
            forall|j: int| 0 <= j < i ==> same_type(#[trigger] subtypes@[j], t.subtypes@[j]),
        decreases t.subtypes@.len() - i,
    {
        proof {
            assert(decreases_to!(*t => t.subtypes));
            assert(decreases_to!(t.subtypes => t.subtypes@));
            assert(decreases_to!(t.subtypes@ => t.subtypes@[i as int]));
        }
        let c = clone_complex_type(&t.subtypes[i]);
        subtypes.push(c);
        i = i + 1;
    }
    ComplexType { tag: t.tag, subtypes }
}

/// The information of one column as the host's result set reports it.
pub struct MetaColumnWrapper {
    pub ksname: String,
    pub tablename: String,
    pub name: String,
}

/// One row of a result: the column values in column order, null positions
/// kept.
pub struct RowWrapper {
    pub inner: Vec<Option<ProtocolValue>>,
}

/// The row part of a result: column metadata and the rows, in server order.
pub struct ResultPage {
    pub columns: Vec<MetaColumnWrapper>,
    pub column_types: Vec<ComplexType>,
    pub rows: Vec<RowWrapper>,
}

/// A whole query result: the rows when the statement returned rows, plus the
/// page-level metadata the protocol reports with every result.
pub struct QueryResultWrapper {
    pub rows: Option<ResultPage>,
    pub warnings: Vec<String>,
    pub coordinator: String,
    pub tracing_id: Option<Vec<u8>>,
}

impl QueryResultWrapper {
    /// Extracts all the rows of the result; a result that carried no rows
    /// yields nothing.
    pub fn get_rows(self) -> (r: Option<Vec<RowWrapper>>)
        ensures
            match self.rows {
                Some(p) => r == Some(p.rows),
                None => r is None,
            },
    {
        match self.rows {
            Some(p) => Some(p.rows),
            None => None,
        }
    }

    /// The names of the columns, in the order the result reports them; empty
    /// for a result without rows.
    pub fn get_columns_names(&self) -> (r: Vec<String>)
        ensures
            match self.rows {
                Some(p) => r@.len() == p.columns@.len() && (forall|i: int|
                    0 <= i < p.columns@.len() ==> (#[trigger] r@[i])@ == p.columns@[i].name@),
                None => r@.len() == 0,
            },
    {
        match &self.rows {
            Some(p) => {
                let mut out: Vec<String> = Vec::new();
                let mut i: usize = 0;
                while i < p.columns.len()
                    invariant
                        0 <= i <= p.columns@.len(),
                        out@.len() == i,
                        forall|j: int|
                            0 <= j < i ==> (#[trigger] out@[j])@ == p.columns@[j].name@,
                    decreases p.columns@.len() - i,
                {
                    out.push(p.columns[i].name.clone());
                    i = i + 1;
                }
                out
            },
            None => Vec::new(),
        }
    }

    /// The type descriptors of the columns, in order; empty for a result
    /// without rows.
    pub fn get_columns_types(&self) -> (r: Vec<ComplexType>)
        ensures
            match self.rows {
                Some(p) => r@.len() == p.column_types@.len() && (forall|i: int|
                    0 <= i < p.column_types@.len() ==> same_type(
                        #[trigger] r@[i],
                        p.column_types@[i],
                    )),
                None => r@.len() == 0,
            },
    {
        match &self.rows {
            Some(p) => {
                let mut out: Vec<ComplexType> = Vec::new();
                let mut i: usize = 0;
                while i < p.column_types.len()
                    invariant
                        0 <= i <= p.column_types@.len(),
                        out@.len() == i,
                        forall|j: int|
                            0 <= j < i ==> same_type(#[trigger] out@[j], p.column_types@[j]),
                    decreases p.column_types@.len() - i,
                {
                    let c = clone_complex_type(&p.column_types[i]);
                    out.push(c);
                    i = i + 1;
                }
                out
            },
            None => Vec::new(),
        }
    }

    /// The address of the coordinator that answered the query.
    pub fn get_coordinator(&self) -> (r: String)
        ensures
            r@ == self.coordinator@,
    {
        self.coordinator.clone()
    }

    /// The specification of all columns, in order; empty for a result
    /// without rows.
    pub fn get_columns_specs(&self) -> (r: Vec<MetaColumnWrapper>)
        ensures
            match self.rows {
                Some(p) => r@.len() == p.columns@.len() && (forall|i: int|
                    0 <= i < p.columns@.len() ==> (#[trigger] r@[i]).ksname@
                        == p.columns@[i].ksname@ && r@[i].tablename@ == p.columns@[i].tablename@
                        && r@[i].name@ == p.columns@[i].name@),
                None => r@.len() == 0,
            },
    {
        match &self.rows {
            Some(p) => {
                let mut out: Vec<MetaColumnWrapper> = Vec::new();
                let mut i: usize = 0;
                while i < p.columns.len()
                    invariant
                        0 <= i <= p.columns@.len(),
                        out@.len() == i,
                        forall|j: int|
                            0 <= j < i ==> (#[trigger] out@[j]).ksname@ == p.columns@[j].ksname@
                                && out@[j].tablename@ == p.columns@[j].tablename@ && out@[j].name@
                                == p.columns@[j].name@,
                    decreases p.columns@.len() - i,
                {
                    let c = &p.columns[i];
                    out.push(
                        MetaColumnWrapper {
                            ksname: c.ksname.clone(),
                            tablename: c.tablename.clone(),
                            name: c.name.clone(),
                        },
                    );
                    i = i + 1;
                }
                out
            },
            None => Vec::new(),
        }
    }

    /// All warnings the query generated.
    pub fn get_warnings(&self) -> (r: Vec<String>)
        ensures
            r@.len() == self.warnings@.len(),
            forall|i: int|
                0 <= i < self.warnings@.len() ==> (#[trigger] r@[i])@ == self.warnings@[i]@,
    {
        let mut out: Vec<String> = Vec::new();
        let mut i: usize = 0;
        while i < self.warnings.len()
            invariant
                0 <= i <= self.warnings@.len(),
                out@.len() == i,
                forall|j: int| 0 <= j < i ==> (#[trigger] out@[j])@ == self.warnings@[j]@,
            decreases self.warnings@.len() - i,
        {
            out.push(self.warnings[i].clone());
            i = i + 1;
        }
        out
    }

    /// The tracing identifier of the query, when tracing was on.
    pub fn get_trace_id(&self) -> (r: Option<Vec<u8>>)
        ensures
            match self.tracing_id {
                Some(b) => r is Some && r->0@ == b@,
                None => r is None,
            },
    {
        match &self.tracing_id {
            Some(b) => Some(crate::inet::copy_bytes(b.as_slice())),
            None => None,
        }
    }
}

} // verus!
