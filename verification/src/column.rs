//! Typed columns and batches: the in-memory columnar data model.

use vstd::prelude::*;

use crate::schema::{ColumnDescV, LogicalType, Schema};

verus! {

/// The densely packed decoded values of one column, in row order.
pub enum ColumnValues {
    UInt16(Vec<u16>),
    UInt32(Vec<u32>),
    UInt64(Vec<u64>),
    Utf8(Vec<Vec<u8>>),
}

/// Mathematical model of [`ColumnValues`].
pub ghost enum ColumnValuesV {
    UInt16(Seq<u16>),
    UInt32(Seq<u32>),
    UInt64(Seq<u64>),
    Utf8(Seq<Seq<u8>>),
}

impl View for ColumnValues {
    type V = ColumnValuesV;

    open spec fn view(&self) -> ColumnValuesV {
        match self {
            ColumnValues::UInt16(v) => ColumnValuesV::UInt16(v@),
            ColumnValues::UInt32(v) => ColumnValuesV::UInt32(v@),
            ColumnValues::UInt64(v) => ColumnValuesV::UInt64(v@),
            ColumnValues::Utf8(v) => ColumnValuesV::Utf8(v.deep_view()),
        }
    }
}

/// The logical type that `v` stores.
pub open spec fn values_type(v: ColumnValuesV) -> LogicalType {
    match v {
        ColumnValuesV::UInt16(_) => LogicalType::UInt16,
        ColumnValuesV::UInt32(_) => LogicalType::UInt32,
        ColumnValuesV::UInt64(_) => LogicalType::UInt64,
        ColumnValuesV::Utf8(_) => LogicalType::Utf8,
    }
}

/// The number of values `v` stores.
pub open spec fn values_len(v: ColumnValuesV) -> nat {
    match v {
        ColumnValuesV::UInt16(s) => s.len(),
        ColumnValuesV::UInt32(s) => s.len(),
        ColumnValuesV::UInt64(s) => s.len(),
        ColumnValuesV::Utf8(s) => s.len(),
    }
}

/// One sealed column: its values, plus a per-position validity flag
/// when the column is nullable (`true` marks a present value).
pub struct TypedColumn {
    pub values: ColumnValues,
    pub validity: Option<Vec<bool>>,
}

/// Mathematical model of a [`TypedColumn`].
pub ghost struct TypedColumnV {
    pub values: ColumnValuesV,
    pub validity: Option<Seq<bool>>,
}

impl View for TypedColumn {
    type V = TypedColumnV;

    open spec fn view(&self) -> TypedColumnV {
        TypedColumnV {
            values: self.values@,
            validity: match self.validity {
                Some(ref v) => Some(v@),
                None => None,
            },
        }
    }
}

/// `c` conforms to its descriptor `d`: the stored type matches the
/// declared one, and there is a validity flag per value exactly when
/// the column is nullable.
pub open spec fn column_matches_desc(c: TypedColumnV, d: ColumnDescV) -> bool {
    &&& values_type(c.values) == d.ty
    &&& (d.nullable <==> c.validity is Some)
    &&& (c.validity matches Some(v) ==> v.len() == values_len(c.values))
}

/// A schema plus one typed column per schema column, all of identical
/// length; the unit of serialization, immutable once produced.
pub struct Batch {
    pub schema: Schema,
    pub columns: Vec<TypedColumn>,
}

/// Mathematical model of a [`Batch`].
pub ghost struct BatchV {
    pub schema: Seq<ColumnDescV>,
    pub columns: Seq<TypedColumnV>,
}

impl View for Batch {
    type V = BatchV;

    open spec fn view(&self) -> BatchV {
        BatchV {
            schema: self.schema@,
            columns: self.columns@.map_values(|c: TypedColumn| c@),
        }
    }
}

/// The number of rows of `b`: the common length of its columns.
pub open spec fn batch_rows(b: BatchV) -> nat {
    if b.columns.len() == 0 {
        0
    } else {
        values_len(b.columns[0].values)
    }
}

/// Structural well-formedness of a batch: one column per schema entry,
/// each conforming to its descriptor, and all columns of equal length.
pub open spec fn batch_wf(b: BatchV) -> bool {
    &&& b.columns.len() == b.schema.len()
    &&& forall|j: int|
        0 <= j < b.columns.len() ==> column_matches_desc(#[trigger] b.columns[j], b.schema[j])
    &&& forall|j: int|
        0 <= j < b.columns.len() ==> values_len(#[trigger] b.columns[j].values) == batch_rows(b)
}

/// Every text value of `v` fits the container's 64-bit length fields.
pub open spec fn utf8_lens_fit(v: ColumnValuesV) -> bool {
    v matches ColumnValuesV::Utf8(vs) ==> forall|i: int|
        0 <= i < vs.len() ==> (#[trigger] vs[i]).len() <= u64::MAX
}

/// Every dimension of `b` fits the container's 64-bit length fields.
pub open spec fn batch_fits(b: BatchV) -> bool {
    &&& b.schema.len() <= u64::MAX
    &&& batch_rows(b) <= u64::MAX
    &&& forall|j: int| 0 <= j < b.schema.len() ==> (#[trigger] b.schema[j].name).len() <= u64::MAX
    &&& forall|j: int|
        0 <= j < b.columns.len() ==> utf8_lens_fit(#[trigger] b.columns[j].values)
}

impl Batch {
    /// Number of columns.
    pub fn num_columns(&self) -> (n: usize)
        ensures
            n == self@.columns.len(),
    {
        self.columns.len()
    }

    /// Number of rows: the common length of the columns.
    pub fn num_rows(&self) -> (n: usize)
        requires
            batch_wf(self@),
        ensures
            n == batch_rows(self@),
    {
        if self.columns.len() == 0 {
            0
        } else {
            match &self.columns[0].values {
                ColumnValues::UInt16(v) => v.len(),
                ColumnValues::UInt32(v) => v.len(),
                ColumnValues::UInt64(v) => v.len(),
                ColumnValues::Utf8(v) => v.len(),
            }
        }
    }
}

} // verus!
