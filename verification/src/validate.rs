//! Structural validation of raw rows against a schema: column count and
//! UTF-8 well-formedness, checked for the whole input before any
//! conversion commits.

use vstd::prelude::*;

use crate::utf8::{check_utf8, is_utf8};

verus! {

/// Structural nonconformance of one raw row. Lines are 1-based and
/// count the header row, so the first data row is line 2; field
/// indices are 1-based.
#[derive(Clone, Copy, Debug, PartialEq, Eq, Structural)]
pub enum ValidationError {
    ColumnCountMismatch { line: usize, expected: usize, found: usize },
    EncodingError { line: usize, field_index: usize },
}

/// The position of the first field of `row` that is not well-formed
/// UTF-8.
pub open spec fn first_bad_field(row: Seq<Seq<u8>>) -> Option<int>
    decreases row.len(),
{
    if row.len() == 0 {
        None
    } else if !is_utf8(row[0]) {
        Some(0)
    } else {
        match first_bad_field(row.skip(1)) {
            Some(k) => Some(k + 1),
            None => None,
        }
    }
}

/// The first violation of `row` against a schema of `ncols` columns,
/// reported for line `line`: a wrong field count, else the first
/// malformed field.
pub open spec fn row_violation(ncols: int, row: Seq<Seq<u8>>, line: int) -> Option<
    ValidationError,
> {
    if row.len() != ncols {
        Some(
            ValidationError::ColumnCountMismatch {
                line: line as usize,
                expected: ncols as usize,
                found: row.len() as usize,
            },
        )
    } else {
        match first_bad_field(row) {
            Some(j) => Some(
                ValidationError::EncodingError { line: line as usize, field_index: (j + 1) as usize },
            ),
            None => None,
        }
    }
}

/// The first violation among `rows`, whose first row is line `line`.
pub open spec fn rows_violation(ncols: int, rows: Seq<Seq<Seq<u8>>>, line: int) -> Option<
    ValidationError,
>
    decreases rows.len(),
{
    if rows.len() == 0 {
        None
    } else {
        match row_violation(ncols, rows[0], line) {
            Some(e) => Some(e),
            None => rows_violation(ncols, rows.skip(1), line + 1),
        }
    }
}

/// Checks every row of the input against the schema's column count and
/// for well-formed UTF-8 in every field, reporting the first violation
/// and touching nothing.
pub fn validate_rows(ncols: usize, rows: &Vec<Vec<Vec<u8>>>) -> (r: Result<(), ValidationError>)
    requires
        rows@.len() + 2 <= usize::MAX,
    ensures
        match r {
            Ok(_) => rows_violation(ncols as int, rows.deep_view(), 2) is None,
            Err(e) => rows_violation(ncols as int, rows.deep_view(), 2) == Some(e),
        },
{
    let ghost rv = rows.deep_view();
    proof {
        assert(forall|k: int| 0 <= k < rv.len() ==> #[trigger] rv[k] == rows@[k].deep_view());
        assert(rv.skip(0) =~= rv);
    }
    let n = rows.len();
    let mut i: usize = 0;
    while i < n
        invariant
            i <= n == rv.len(),
            n + 2 <= usize::MAX,
            rv == rows.deep_view(),
            forall|k: int| 0 <= k < rv.len() ==> #[trigger] rv[k] == rows@[k].deep_view(),
            rows_violation(ncols as int, rv, 2) == rows_violation(
                ncols as int,
                rv.skip(i as int),
                i + 2,
            ),
        decreases n - i,
    {
        let line = i + 2;
        let row = &rows[i];
        let ghost rowv = rv[i as int];
        proof {
            assert(rv.skip(i as int)[0] == rowv);
            assert(forall|k: int| 0 <= k < rowv.len() ==> #[trigger] rowv[k] == row@[k]@);
            assert(rowv.len() == row@.len());
        }
        if row.len() != ncols {
            let found = row.len();
            proof {
                assert(row_violation(ncols as int, rowv, line as int) == Some(
                    ValidationError::ColumnCountMismatch { line, expected: ncols, found },
                ));
            }
            return Err(ValidationError::ColumnCountMismatch { line, expected: ncols, found });
        }
        let m = row.len();
        let mut j: usize = 0;
        proof {
            assert(rowv.skip(0) =~= rowv);
        }
        while j < m
            invariant
                j <= m == rowv.len(),
                i < n == rv.len(),
                n + 2 <= usize::MAX,
                line == i + 2,
                rv == rows.deep_view(),
                rowv == rv[i as int],
                rowv.len() == ncols,
                rows_violation(ncols as int, rv, 2) == rows_violation(
                    ncols as int,
                    rv.skip(i as int),
                    i + 2,
                ),
                forall|k: int| 0 <= k < rowv.len() ==> #[trigger] rowv[k] == rows@[i as int]@[k]@,
                forall|k: int| 0 <= k < j ==> is_utf8(#[trigger] rowv[k]),
                first_bad_field(rowv) == (match first_bad_field(rowv.skip(j as int)) {
                    Some(k) => Some(k + j),
                    None => None,
                }),
            decreases m - j,
        {
            if !check_utf8(rows[i][j].as_slice()) {
                proof {
                    assert(rowv.skip(j as int)[0] == rowv[j as int]);
                    assert(first_bad_field(rowv) == Some(j as int));
                    assert(rv.skip(i as int)[0] == rowv);
                    assert(row_violation(ncols as int, rowv, line as int) == Some(
                        ValidationError::EncodingError { line, field_index: (j + 1) as usize },
                    ));
                }
                return Err(ValidationError::EncodingError { line, field_index: j + 1 });
            }
            proof {
                assert(rowv.skip(j as int)[0] == rowv[j as int]);
                assert(rowv.skip(j as int).skip(1) =~= rowv.skip(j + 1));
            }
            j = j + 1;
        }
        proof {
            assert(rowv.skip(m as int).len() == 0);
            assert(first_bad_field(rowv) is None);
            assert(row_violation(ncols as int, rowv, line as int) is None);
            assert(rv.skip(i as int).skip(1) =~= rv.skip(i + 1));
        }
        i = i + 1;
    }
    proof {
        assert(rv.skip(n as int).len() == 0);
    }
    Ok(())
}


/// Rows that pass validation all have exactly the schema's column count.
pub proof fn lemma_validated_rectangular(ncols: int, rows: Seq<Seq<Seq<u8>>>, line: int)
    requires
        rows_violation(ncols, rows, line) is None,
    ensures
        forall|i: int| 0 <= i < rows.len() ==> (#[trigger] rows[i]).len() == ncols,
    decreases rows.len(),
{
    if rows.len() > 0 {
        lemma_validated_rectangular(ncols, rows.skip(1), line + 1);
        assert forall|i: int| 0 <= i < rows.len() implies (#[trigger] rows[i]).len() == ncols by {
            if i > 0 {
                assert(rows.skip(1)[i - 1] == rows[i]);
            }
        }
    }
}

} // verus!
