//! Typed conversion of validated rows into a sealed batch: each field
//! is parsed as its column's declared logical type, and the first
//! failure aborts the whole build with no partial batch.

use vstd::prelude::*;

use crate::bytes::copy_bytes;
use crate::column::{
    batch_rows, batch_wf, Batch, BatchV, ColumnValues, ColumnValuesV, TypedColumn, TypedColumnV,
};
use crate::numeric::{digits_part, digits_value, parse_uint, parse_uint_spec};
use crate::schema::{ColumnDescV, LogicalType, Schema};

verus! {

/// A per-field type-parse failure: the 1-based line (counting the
/// header), the name of the offending column, and the raw text that
/// failed to parse.
#[derive(Debug, PartialEq, Eq)]
pub enum ConversionError {
    ParseError { line: usize, column: Vec<u8>, raw_value: Vec<u8> },
}

/// Mathematical model of a [`ConversionError`].
pub ghost struct ConversionErrorV {
    pub line: nat,
    pub column: Seq<u8>,
    pub raw_value: Seq<u8>,
}

impl View for ConversionError {
    type V = ConversionErrorV;

    open spec fn view(&self) -> ConversionErrorV {
        match self {
            ConversionError::ParseError { line, column, raw_value } => ConversionErrorV {
                line: *line as nat,
                column: column@,
                raw_value: raw_value@,
            },
        }
    }
}

/// The field text `f` parses as its column's logical type `ty`.
/// Text columns accept any (already validated) field verbatim; the
/// unsigned types accept a base-10 literal that fits their range.
pub open spec fn field_ok(ty: LogicalType, f: Seq<u8>) -> bool {
    match ty {
        LogicalType::UInt16 => parse_uint_spec(f, u16::MAX as nat) is Some,
        LogicalType::UInt32 => parse_uint_spec(f, u32::MAX as nat) is Some,
        LogicalType::UInt64 => parse_uint_spec(f, u64::MAX as nat) is Some,
        LogicalType::Utf8 => true,
    }
}

/// The numeric value of a parsed field.
pub open spec fn field_nat(f: Seq<u8>) -> nat {
    digits_value(digits_part(f))
}

/// The position of the first field of `row` that does not parse as its
/// column's type, walking the row left to right.
pub open spec fn row_first_bad(sch: Seq<ColumnDescV>, row: Seq<Seq<u8>>) -> Option<int>
    decreases sch.len(),
{
    if sch.len() == 0 || row.len() == 0 {
        None
    } else if !field_ok(sch[0].ty, row[0]) {
        Some(0)
    } else {
        match row_first_bad(sch.skip(1), row.skip(1)) {
            Some(k) => Some(k + 1),
            None => None,
        }
    }
}

/// The row-major position of the first field of `rows` that does not
/// parse as its column's type.
pub open spec fn rows_first_bad(sch: Seq<ColumnDescV>, rows: Seq<Seq<Seq<u8>>>) -> Option<
    (int, int),
>
    decreases rows.len(),
{
    if rows.len() == 0 {
        None
    } else {
        match row_first_bad(sch, rows[0]) {
            Some(j) => Some((0, j)),
            None => match rows_first_bad(sch, rows.skip(1)) {
                Some((i, j)) => Some((i + 1, j)),
                None => None,
            },
        }
    }
}

/// The sealed column at position `j`, built by parsing field `j` of
/// every row as descriptor `d` declares; nullable columns carry an
/// all-present validity vector, since parsing never produces nulls.
pub open spec fn column_spec(d: ColumnDescV, rows: Seq<Seq<Seq<u8>>>, j: int) -> TypedColumnV {
    TypedColumnV {
        values: match d.ty {
            LogicalType::UInt16 => ColumnValuesV::UInt16(
                Seq::new(rows.len(), |i: int| field_nat(rows[i][j]) as u16),
            ),
            LogicalType::UInt32 => ColumnValuesV::UInt32(
                Seq::new(rows.len(), |i: int| field_nat(rows[i][j]) as u32),
            ),
            LogicalType::UInt64 => ColumnValuesV::UInt64(
                Seq::new(rows.len(), |i: int| field_nat(rows[i][j]) as u64),
            ),
            LogicalType::Utf8 => ColumnValuesV::Utf8(Seq::new(rows.len(), |i: int| rows[i][j])),
        },
        validity: if d.nullable {
            Some(Seq::new(rows.len(), |i: int| true))
        } else {
            None
        },
    }
}

/// The batch that a fully successful conversion produces.
pub open spec fn batch_spec(sch: Seq<ColumnDescV>, rows: Seq<Seq<Seq<u8>>>) -> BatchV {
    BatchV { schema: sch, columns: Seq::new(sch.len(), |j: int| column_spec(sch[j], rows, j)) }
}

/// The outcome of converting validated `rows` under `sch`: the sealed
/// batch, or the error naming the first field (in row-major order)
/// that does not parse as its column's declared type.
pub open spec fn convert_spec(sch: Seq<ColumnDescV>, rows: Seq<Seq<Seq<u8>>>) -> Result<
    BatchV,
    ConversionErrorV,
> {
    match rows_first_bad(sch, rows) {
        Some((i, j)) => Err(
            ConversionErrorV {
                line: (i + 2) as nat,
                column: sch[j].name,
                raw_value: rows[i][j],
            },
        ),
        None => Ok(batch_spec(sch, rows)),
    }
}

/// Tests whether `f` parses as `ty`.
fn check_field(ty: LogicalType, f: &Vec<u8>) -> (r: bool)
    ensures
        r == field_ok(ty, f@),
{
    match ty {
        LogicalType::UInt16 => parse_uint(f.as_slice(), 65535).is_some(),
        LogicalType::UInt32 => parse_uint(f.as_slice(), 0xffff_ffff).is_some(),
        LogicalType::UInt64 => parse_uint(f.as_slice(), u64::MAX).is_some(),
        LogicalType::Utf8 => true,
    }
}

/// When no field is bad, every field parses.
proof fn lemma_row_all_ok(sch: Seq<ColumnDescV>, row: Seq<Seq<u8>>)
    requires
        row_first_bad(sch, row) is None,
        sch.len() == row.len(),
    ensures
        forall|j: int| 0 <= j < sch.len() ==> field_ok(sch[j].ty, #[trigger] row[j]),
    decreases sch.len(),
{
    if sch.len() > 0 {
        lemma_row_all_ok(sch.skip(1), row.skip(1));
        assert forall|j: int| 0 <= j < sch.len() implies field_ok(
            sch[j].ty,
            #[trigger] row[j],
        ) by {
            if j > 0 {
                assert(sch.skip(1)[j - 1] == sch[j]);
                assert(row.skip(1)[j - 1] == row[j]);
            }
        }
    }
}

/// When no field of any row is bad, every field of every row parses.
proof fn lemma_rows_all_ok(sch: Seq<ColumnDescV>, rows: Seq<Seq<Seq<u8>>>)
    requires
        rows_first_bad(sch, rows) is None,
        forall|i: int| 0 <= i < rows.len() ==> (#[trigger] rows[i]).len() == sch.len(),
    ensures
        forall|i: int, j: int|
            0 <= i < rows.len() && 0 <= j < sch.len() ==> field_ok(
                sch[j].ty,
                #[trigger] rows[i][j],
            ),
    decreases rows.len(),
{
    if rows.len() > 0 {
        lemma_row_all_ok(sch, rows[0]);
        assert(forall|i: int|
            0 <= i < rows.skip(1).len() ==> (#[trigger] rows.skip(1)[i]).len() == sch.len());
        lemma_rows_all_ok(sch, rows.skip(1));
        assert forall|i: int, j: int|
            0 <= i < rows.len() && 0 <= j < sch.len() implies field_ok(
            sch[j].ty,
            #[trigger] rows[i][j],
        ) by {
            if i > 0 {
                assert(rows.skip(1)[i - 1] == rows[i]);
            }
        }
    }
}

/// Finds the first field, in row-major order, that does not parse as
/// its column's declared type.
fn find_first_bad(schema: &Schema, rows: &Vec<Vec<Vec<u8>>>) -> (r: Option<(usize, usize)>)
    requires
        forall|i: int| 0 <= i < rows@.len() ==> (#[trigger] rows@[i])@.len() == schema@.len(),
    ensures
        match r {
            Some((i, j)) => {
                &&& rows_first_bad(schema@, rows.deep_view()) == Some((i as int, j as int))
                &&& i < rows@.len()
                &&& j < schema@.len()
            },
            None => rows_first_bad(schema@, rows.deep_view()) is None,
        },
{
    let ghost sch = schema@;
    let ghost rv = rows.deep_view();
    proof {
        assert(forall|k: int| 0 <= k < rv.len() ==> #[trigger] rv[k] == rows@[k].deep_view());
        assert(rv.skip(0) =~= rv);
    }
    let n = rows.len();
    let ncols = schema.columns.len();
    let mut i: usize = 0;
    while i < n
        invariant
            i <= n == rv.len(),
            sch == schema@,
            ncols == sch.len(),
            rv == rows.deep_view(),
            forall|k: int| 0 <= k < rv.len() ==> #[trigger] rv[k] == rows@[k].deep_view(),
            forall|k: int| 0 <= k < rv.len() ==> (#[trigger] rv[k]).len() == sch.len(),
            rows_first_bad(sch, rv) == (match rows_first_bad(sch, rv.skip(i as int)) {
                Some((a, b)) => Some((a + i, b)),
                None => None,
            }),
        decreases n - i,
    {
        let ghost rowv = rv[i as int];
        proof {
            assert(rv.skip(i as int)[0] == rowv);
            assert(forall|k: int| 0 <= k < rowv.len() ==> #[trigger] rowv[k] == rows@[i as int]@[k]@);
        }
        let mut j: usize = 0;
        proof {
            assert(sch.skip(0) =~= sch);
            assert(rowv.skip(0) =~= rowv);
        }
        while j < ncols
            invariant
                j <= ncols == sch.len(),
                i < n == rv.len(),
                sch == schema@,
                rv == rows.deep_view(),
                rowv == rv[i as int],
                rowv.len() == sch.len(),
                forall|k: int| 0 <= k < rv.len() ==> #[trigger] rv[k] == rows@[k].deep_view(),
                forall|k: int| 0 <= k < rv.len() ==> (#[trigger] rv[k]).len() == sch.len(),
                forall|k: int| 0 <= k < rowv.len() ==> #[trigger] rowv[k] == rows@[i as int]@[k]@,
                rows_first_bad(sch, rv) == (match rows_first_bad(sch, rv.skip(i as int)) {
                    Some((a, b)) => Some((a + i, b)),
                    None => None,
                }),
                row_first_bad(sch, rowv) == (match row_first_bad(
                    sch.skip(j as int),
                    rowv.skip(j as int),
                ) {
                    Some(k) => Some(k + j),
                    None => None,
                }),
            decreases ncols - j,
        {
            let ty = schema.columns[j].ty;
            proof {
                assert(sch[j as int] == schema.columns@[j as int]@);
                assert(sch.skip(j as int)[0] == sch[j as int]);
                assert(rowv.skip(j as int)[0] == rowv[j as int]);
            }
            if !check_field(ty, &rows[i][j]) {
                proof {
                    assert(row_first_bad(sch, rowv) == Some(j as int));
                }
                return Some((i, j));
            }
            proof {
                assert(sch.skip(j as int).skip(1) =~= sch.skip(j + 1));
                assert(rowv.skip(j as int).skip(1) =~= rowv.skip(j + 1));
            }
            j = j + 1;
        }
        proof {
            assert(sch.skip(ncols as int).len() == 0);
            assert(row_first_bad(sch, rowv) is None);
            assert(rv.skip(i as int).skip(1) =~= rv.skip(i + 1));
        }
        i = i + 1;
    }
    proof {
        assert(rv.skip(n as int).len() == 0);
    }
    None
}

/// Parses every field of every validated row as its column's declared
/// type and seals the result into a batch; the first parse failure, in
/// row-major order, aborts the whole build with no partial batch.
pub fn build_batch(schema: Schema, rows: &Vec<Vec<Vec<u8>>>) -> (r: Result<Batch, ConversionError>)
    requires
        rows@.len() + 2 <= usize::MAX,
        forall|i: int| 0 <= i < rows@.len() ==> (#[trigger] rows@[i])@.len() == schema@.len(),
    ensures
        match r {
            Ok(b) => {
                &&& convert_spec(schema@, rows.deep_view()) == Ok::<BatchV, ConversionErrorV>(b@)
                &&& batch_wf(b@)
                &&& batch_rows(b@) == if schema@.len() == 0 {
                    0
                } else {
                    rows@.len()
                }
            },
            Err(e) => convert_spec(schema@, rows.deep_view()) == Err::<BatchV, ConversionErrorV>(
                e@,
            ),
        },
{
    let ghost sch = schema@;
    let ghost rv = rows.deep_view();
    proof {
        assert(forall|k: int| 0 <= k < rv.len() ==> #[trigger] rv[k] == rows@[k].deep_view());
        assert(forall|k: int| 0 <= k < rv.len() ==> (#[trigger] rv[k]).len() == sch.len());
    }
    match find_first_bad(&schema, rows) {
        Some((i, j)) => {
            let line = i + 2;
            let column = copy_bytes(&schema.columns[j].name);
            let raw_value = copy_bytes(&rows[i][j]);
            proof {
                assert(sch[j as int] == schema.columns@[j as int]@);
                assert(rv[i as int][j as int] == rows@[i as int]@[j as int]@);
            }
            Err(ConversionError::ParseError { line, column, raw_value })
        },
        None => {
            proof {
                lemma_rows_all_ok(sch, rv);
            }
            let n = rows.len();
            let ncols = schema.columns.len();
            let mut cols: Vec<TypedColumn> = Vec::new();
            let mut j: usize = 0;
            while j < ncols
                invariant
                    j <= ncols == sch.len(),
                    n == rv.len(),
                    n + 2 <= usize::MAX,
                    sch == schema@,
                    ncols == schema.columns@.len(),
                    rv == rows.deep_view(),
                    forall|k: int| 0 <= k < rv.len() ==> #[trigger] rv[k] == rows@[k].deep_view(),
                    forall|k: int| 0 <= k < rv.len() ==> (#[trigger] rv[k]).len() == sch.len(),
                    forall|a: int, b: int|
                        0 <= a < rv.len() && 0 <= b < sch.len() ==> field_ok(
                            sch[b].ty,
                            #[trigger] rv[a][b],
                        ),
                    cols@.len() == j,
                    forall|l: int|
                        0 <= l < j ==> (#[trigger] cols@[l])@ == column_spec(sch[l], rv, l),
                decreases ncols - j,
            {
                let d = &schema.columns[j];
                proof {
                    assert(sch[j as int] == schema.columns@[j as int]@);
                }
                let values: ColumnValues = match d.ty {
                    LogicalType::UInt16 => {
                        let mut vals: Vec<u16> = Vec::new();
                        let mut i: usize = 0;
                        while i < n
                            invariant
                                i <= n == rv.len(),
                                j < sch.len(),
                                rv == rows.deep_view(),
                                forall|k: int|
                                    0 <= k < rv.len() ==> #[trigger] rv[k] == rows@[k].deep_view(),
                                forall|k: int|
                                    0 <= k < rv.len() ==> (#[trigger] rv[k]).len() == sch.len(),
                                forall|a: int, b: int|
                                    0 <= a < rv.len() && 0 <= b < sch.len() ==> field_ok(
                                        sch[b].ty,
                                        #[trigger] rv[a][b],
                                    ),
                                sch[j as int].ty == LogicalType::UInt16,
                                vals@.len() == i,
                                forall|l: int|
                                    0 <= l < i ==> #[trigger] vals@[l] == field_nat(
                                        rv[l][j as int],
                                    ) as u16,
                            decreases n - i,
                        {
                            proof {
                                assert(rv[i as int][j as int] == rows@[i as int]@[j as int]@);
                                assert(field_ok(sch[j as int].ty, rv[i as int][j as int]));
                            }
                            let v = match parse_uint(rows[i][j].as_slice(), 65535) {
                                Some(v) => v as u16,
                                None => {
                                    proof {
                                        assert(false);
                                    }
                                    0
                                },
                            };
                            vals.push(v);
                            i = i + 1;
                        }
                        ColumnValues::UInt16(vals)
                    },
                    LogicalType::UInt32 => {
                        let mut vals: Vec<u32> = Vec::new();
                        let mut i: usize = 0;
                        while i < n
                            invariant
                                i <= n == rv.len(),
                                j < sch.len(),
                                rv == rows.deep_view(),
                                forall|k: int|
                                    0 <= k < rv.len() ==> #[trigger] rv[k] == rows@[k].deep_view(),
                                forall|k: int|
                                    0 <= k < rv.len() ==> (#[trigger] rv[k]).len() == sch.len(),
                                forall|a: int, b: int|
                                    0 <= a < rv.len() && 0 <= b < sch.len() ==> field_ok(
                                        sch[b].ty,
                                        #[trigger] rv[a][b],
                                    ),
                                sch[j as int].ty == LogicalType::UInt32,
                                vals@.len() == i,
                                forall|l: int|
                                    0 <= l < i ==> #[trigger] vals@[l] == field_nat(
                                        rv[l][j as int],
                                    ) as u32,
                            decreases n - i,
                        {
                            proof {
                                assert(rv[i as int][j as int] == rows@[i as int]@[j as int]@);
                                assert(field_ok(sch[j as int].ty, rv[i as int][j as int]));
                            }
                            let v = match parse_uint(rows[i][j].as_slice(), 0xffff_ffff) {
                                Some(v) => v as u32,
                                None => {
                                    proof {
                                        assert(false);
                                    }
                                    0
                                },
                            };
                            vals.push(v);
                            i = i + 1;
                        }
                        ColumnValues::UInt32(vals)
                    },
                    LogicalType::UInt64 => {
                        let mut vals: Vec<u64> = Vec::new();
                        let mut i: usize = 0;
                        while i < n
                            invariant
                                i <= n == rv.len(),
                                j < sch.len(),
                                rv == rows.deep_view(),
                                forall|k: int|
                                    0 <= k < rv.len() ==> #[trigger] rv[k] == rows@[k].deep_view(),
                                forall|k: int|
                                    0 <= k < rv.len() ==> (#[trigger] rv[k]).len() == sch.len(),
                                forall|a: int, b: int|
                                    0 <= a < rv.len() && 0 <= b < sch.len() ==> field_ok(
                                        sch[b].ty,
                                        #[trigger] rv[a][b],
                                    ),
                                sch[j as int].ty == LogicalType::UInt64,
                                vals@.len() == i,
                                forall|l: int|
                                    0 <= l < i ==> #[trigger] vals@[l] == field_nat(
                                        rv[l][j as int],
                                    ) as u64,
                            decreases n - i,
                        {
                            proof {
                                assert(rv[i as int][j as int] == rows@[i as int]@[j as int]@);
                                assert(field_ok(sch[j as int].ty, rv[i as int][j as int]));
                            }
                            let v = match parse_uint(rows[i][j].as_slice(), u64::MAX) {
                                Some(v) => v,
                                None => {
                                    proof {
                                        assert(false);
                                    }
                                    0
                                },
                            };
                            vals.push(v);
                            i = i + 1;
                        }
                        ColumnValues::UInt64(vals)
                    },
                    LogicalType::Utf8 => {
                        let mut vals: Vec<Vec<u8>> = Vec::new();
                        let mut i: usize = 0;
                        while i < n
                            invariant
                                i <= n == rv.len(),
                                j < sch.len(),
                                rv == rows.deep_view(),
                                forall|k: int|
                                    0 <= k < rv.len() ==> #[trigger] rv[k] == rows@[k].deep_view(),
                                forall|k: int|
                                    0 <= k < rv.len() ==> (#[trigger] rv[k]).len() == sch.len(),
                                vals@.len() == i,
                                forall|l: int|
                                    0 <= l < i ==> (#[trigger] vals@[l])@ == rv[l][j as int],
                            decreases n - i,
                        {
                            proof {
                                assert(rv[i as int][j as int] == rows@[i as int]@[j as int]@);
                            }
                            let v = copy_bytes(&rows[i][j]);
                            vals.push(v);
                            i = i + 1;
                        }
                        ColumnValues::Utf8(vals)
                    },
                };
                let validity: Option<Vec<bool>> = if d.nullable {
                    let mut flags: Vec<bool> = Vec::new();
                    let mut i: usize = 0;
                    while i < n
                        invariant
                            i <= n,
                            flags@.len() == i,
                            forall|l: int| 0 <= l < i ==> #[trigger] flags@[l] == true,
                        decreases n - i,
                    {
                        flags.push(true);
                        i = i + 1;
                    }
                    Some(flags)
                } else {
                    None
                };
                let col = TypedColumn { values, validity };
                proof {
                    let cexp = column_spec(sch[j as int], rv, j as int);
                    match col@.values {
                        ColumnValuesV::UInt16(xs) => {
                            assert(xs =~= cexp.values->UInt16_0);
                        },
                        ColumnValuesV::UInt32(xs) => {
                            assert(xs =~= cexp.values->UInt32_0);
                        },
                        ColumnValuesV::UInt64(xs) => {
                            assert(xs =~= cexp.values->UInt64_0);
                        },
                        ColumnValuesV::Utf8(vs) => {
                            assert forall|l: int| 0 <= l < vs.len() implies #[trigger] vs[l]
                                == cexp.values->Utf8_0[l] by {
                                let vv = col.values->Utf8_0;
                                assert(vs[l] == vv@[l].deep_view());
                                assert(vv@[l].deep_view() =~= vv@[l]@);
                            }
                            assert(vs =~= cexp.values->Utf8_0);
                        },
                    }
                    match col@.validity {
                        Some(fs) => {
                            assert(fs =~= cexp.validity->Some_0);
                        },
                        None => {},
                    }
                    assert(col@ == cexp);
                }
                cols.push(col);
                j = j + 1;
            }
            let b = Batch { schema, columns: cols };
            proof {
                assert(b@.columns =~= batch_spec(sch, rv).columns);
                assert(b@ == batch_spec(sch, rv));
                assert forall|l: int| 0 <= l < b@.columns.len() implies crate::column::values_len(
                    (#[trigger] b@.columns[l]).values,
                ) == rv.len() by {
                    assert(b@.columns[l] == column_spec(sch[l], rv, l));
                }
                if sch.len() > 0 {
                    assert(batch_rows(b@) == rv.len());
                }
                assert(batch_wf(b@));
            }
            Ok(b)
        },
    }
}


/// A reported first-bad-field position lies inside the row.
proof fn lemma_row_first_bad_bounds(sch: Seq<ColumnDescV>, row: Seq<Seq<u8>>)
    ensures
        row_first_bad(sch, row) matches Some(j) ==> 0 <= j < sch.len() && j < row.len(),
    decreases sch.len(),
{
    if sch.len() > 0 && row.len() > 0 {
        lemma_row_first_bad_bounds(sch.skip(1), row.skip(1));
    }
}

/// A reported first-bad-field position lies inside the input.
pub proof fn lemma_rows_first_bad_bounds(sch: Seq<ColumnDescV>, rows: Seq<Seq<Seq<u8>>>)
    ensures
        rows_first_bad(sch, rows) matches Some((i, j)) ==> 0 <= i < rows.len() && 0 <= j
            < sch.len() && j < rows[i].len(),
    decreases rows.len(),
{
    if rows.len() > 0 {
        lemma_row_first_bad_bounds(sch, rows[0]);
        lemma_rows_first_bad_bounds(sch, rows.skip(1));
        match rows_first_bad(sch, rows) {
            Some((i, j)) => {
                if row_first_bad(sch, rows[0]) is None {
                    assert(rows.skip(1)[i - 1] == rows[i]);
                }
            },
            None => {},
        }
    }
}

} // verus!
