//! Column schemas: descriptors, well-formedness (unique names), heuristic
//! inference from header names, and schema construction for a run.

use vstd::prelude::*;

use crate::bytes::{bytes_eq, contains_bytes, has_subrange};

verus! {

/// The declared semantic type of a column, used to drive parsing and
/// storage layout.
#[derive(Clone, Copy, Debug, PartialEq, Eq, Structural)]
pub enum LogicalType {
    UInt16,
    UInt32,
    UInt64,
    Utf8,
}

/// One column of a schema: its name (a UTF-8 byte string), its logical
/// type, and whether values may be null.
#[derive(Debug)]
pub struct ColumnDesc {
    pub name: Vec<u8>,
    pub ty: LogicalType,
    pub nullable: bool,
}

/// Mathematical model of a [`ColumnDesc`].
pub ghost struct ColumnDescV {
    pub name: Seq<u8>,
    pub ty: LogicalType,
    pub nullable: bool,
}

impl View for ColumnDesc {
    type V = ColumnDescV;

    open spec fn view(&self) -> ColumnDescV {
        ColumnDescV { name: self.name@, ty: self.ty, nullable: self.nullable }
    }
}

/// An ordered sequence of column descriptors; immutable once constructed.
#[derive(Debug)]
pub struct Schema {
    pub columns: Vec<ColumnDesc>,
}

impl View for Schema {
    type V = Seq<ColumnDescV>;

    open spec fn view(&self) -> Seq<ColumnDescV> {
        self.columns@.map_values(|c: ColumnDesc| c@)
    }
}

impl Schema {
    /// Number of columns.
    pub fn len(&self) -> (n: usize)
        ensures
            n == self@.len(),
    {
        self.columns.len()
    }
}

/// Column names are pairwise distinct.
pub open spec fn schema_wf(s: Seq<ColumnDescV>) -> bool {
    forall|i: int, j: int| 0 <= i < j < s.len() ==> (#[trigger] s[i].name) != (#[trigger] s[j].name)
}

/// Header/schema inconsistency found while constructing a schema.
#[derive(Clone, Copy, Debug, PartialEq, Eq, Structural)]
pub enum SchemaError {
    /// Two columns share a name; `first` and `second` are the positions
    /// of the earliest such pair.
    DuplicateName { first: usize, second: usize },
    /// An explicitly supplied schema does not have one column per header
    /// field.
    ColumnCountMismatch { expected: usize, found: usize },
}

/// First earlier position in `[lo, j)` whose name equals `names[j]`.
pub open spec fn first_match_before(names: Seq<Seq<u8>>, j: int, lo: int) -> Option<int>
    decreases j - lo,
{
    if lo < 0 || lo >= j || j > names.len() {
        None
    } else if names[lo] == names[j] {
        Some(lo)
    } else {
        first_match_before(names, j, lo + 1)
    }
}

/// The earliest duplicated pair of names at or after position `j`,
/// ordered by the second position, then the first.
pub open spec fn first_dup_from(names: Seq<Seq<u8>>, j: int) -> Option<(int, int)>
    decreases names.len() - j,
{
    if j < 0 || j >= names.len() {
        None
    } else {
        match first_match_before(names, j, 0) {
            Some(i) => Some((i, j)),
            None => first_dup_from(names, j + 1),
        }
    }
}

/// The earliest duplicated pair of names, or `None` when all names are
/// distinct.
pub open spec fn first_dup(names: Seq<Seq<u8>>) -> Option<(int, int)> {
    first_dup_from(names, 0)
}

/// When no duplicate pair is found, all names are pairwise distinct.
proof fn lemma_no_dup_distinct(names: Seq<Seq<u8>>)
    requires
        first_dup(names) is None,
    ensures
        forall|i: int, j: int| 0 <= i < j < names.len() ==> names[i] != names[j],
{
    assert forall|i: int, j: int| 0 <= i < j < names.len() implies names[i] != names[j] by {
        lemma_no_dup_from(names, 0, j);
        lemma_no_match_before(names, j, 0, i);
    }
}

proof fn lemma_no_dup_from(names: Seq<Seq<u8>>, j0: int, j: int)
    requires
        first_dup_from(names, j0) is None,
        0 <= j0 <= j < names.len(),
    ensures
        first_match_before(names, j, 0) is None,
    decreases j - j0,
{
    if j > j0 {
        lemma_no_dup_from(names, j0 + 1, j);
    }
}

proof fn lemma_no_match_before(names: Seq<Seq<u8>>, j: int, lo: int, i: int)
    requires
        first_match_before(names, j, lo) is None,
        0 <= lo <= i < j <= names.len() - 1 || (0 <= lo <= i < j && j < names.len()),
    ensures
        names[i] != names[j],
    decreases i - lo,
{
    if i > lo {
        lemma_no_match_before(names, j, lo + 1, i);
    }
}

/// The substring of header names that marks a 16-bit year-like column.
pub open spec fn year_pat() -> Seq<u8> {
    seq![0x59u8, 0x65u8, 0x61u8, 0x72u8]
}

/// The substring of header names that marks a founding-year column.
pub open spec fn founded_pat() -> Seq<u8> {
    seq![0x46u8, 0x6fu8, 0x75u8, 0x6eu8, 0x64u8, 0x65u8, 0x64u8]
}

/// The substring of header names that marks an employee-count column.
pub open spec fn employees_pat() -> Seq<u8> {
    seq![
        0x4eu8,
        0x75u8,
        0x6du8,
        0x62u8,
        0x65u8,
        0x72u8,
        0x20u8,
        0x6fu8,
        0x66u8,
        0x20u8,
        0x65u8,
        0x6du8,
        0x70u8,
        0x6cu8,
        0x6fu8,
        0x79u8,
        0x65u8,
        0x65u8,
        0x73u8,
    ]
}

/// The logical type that the naming heuristic assigns to a header.
///
/// This is a best-effort convenience, not sound type inference: a header
/// containing `Year` or `Founded` is taken to be a 16-bit year, one
/// containing `Number of employees` a 32-bit count, and anything else
/// text. An explicitly supplied schema is the recommended override.
pub open spec fn inferred_type(name: Seq<u8>) -> LogicalType {
    if has_subrange(name, year_pat()) || has_subrange(name, founded_pat()) {
        LogicalType::UInt16
    } else if has_subrange(name, employees_pat()) {
        LogicalType::UInt32
    } else {
        LogicalType::Utf8
    }
}

/// The schema that inference derives from a header row: one nullable
/// column per header field, typed by the naming heuristic.
pub open spec fn inferred_schema(headers: Seq<Seq<u8>>) -> Seq<ColumnDescV> {
    headers.map_values(|h: Seq<u8>| ColumnDescV { name: h, ty: inferred_type(h), nullable: true })
}

/// The logical type that the naming heuristic assigns to a header.
pub fn infer_type(name: &Vec<u8>) -> (t: LogicalType)
    ensures
        t == inferred_type(name@),
{
    // "Year"
    let year: [u8; 4] = [0x59, 0x65, 0x61, 0x72];
    // "Founded"
    let founded: [u8; 7] = [0x46, 0x6f, 0x75, 0x6e, 0x64, 0x65, 0x64];
    // "Number of employees"
    let employees: [u8; 19] = [
        0x4e,
        0x75,
        0x6d,
        0x62,
        0x65,
        0x72,
        0x20,
        0x6f,
        0x66,
        0x20,
        0x65,
        0x6d,
        0x70,
        0x6c,
        0x6f,
        0x79,
        0x65,
        0x65,
        0x73,
    ];
    proof {
        assert(year@ =~= year_pat());
        assert(founded@ =~= founded_pat());
        assert(employees@ =~= employees_pat());
    }
    if contains_bytes(name.as_slice(), year.as_slice()) || contains_bytes(
        name.as_slice(),
        founded.as_slice(),
    ) {
        LogicalType::UInt16
    } else if contains_bytes(name.as_slice(), employees.as_slice()) {
        LogicalType::UInt32
    } else {
        LogicalType::Utf8
    }
}

/// Finds the earliest duplicated pair among `names`.
fn find_first_dup(names: &Vec<Vec<u8>>) -> (r: Option<(usize, usize)>)
    ensures
        match r {
            Some((i, j)) => first_dup(names.deep_view()) == Some((i as int, j as int)),
            None => first_dup(names.deep_view()) is None,
        },
{
    let ghost nv = names.deep_view();
    proof {
        assert(nv.len() == names@.len());
        assert(forall|k: int| 0 <= k < nv.len() ==> #[trigger] nv[k] == names@[k]@);
    }
    let n = names.len();
    let mut j: usize = 0;
    while j < n
        invariant
            j <= n == nv.len() <= usize::MAX,
            nv == names.deep_view(),
            forall|k: int| 0 <= k < nv.len() ==> #[trigger] nv[k] == names@[k]@,
            first_dup(nv) == first_dup_from(nv, j as int),
        decreases n - j,
    {
        let mut i: usize = 0;
        while i < j
            invariant
                i <= j < n == nv.len() <= usize::MAX,
                nv == names.deep_view(),
                forall|k: int| 0 <= k < nv.len() ==> #[trigger] nv[k] == names@[k]@,
                first_dup(nv) == first_dup_from(nv, j as int),
                first_match_before(nv, j as int, 0) == first_match_before(
                    nv,
                    j as int,
                    i as int,
                ),
            decreases j - i,
        {
            if bytes_eq(names[i].as_slice(), names[j].as_slice()) {
                assert(first_match_before(nv, j as int, i as int) == Some(i as int));
                assert(first_dup_from(nv, j as int) == Some((i as int, j as int)));
                return Some((i, j));
            }
            i = i + 1;
        }
        assert(first_match_before(nv, j as int, j as int) is None);
        j = j + 1;
    }
    None
}

/// Derives a schema from the header row by the naming heuristic,
/// rejecting headers whose names are not unique.
pub fn infer_schema(headers: &Vec<Vec<u8>>) -> (r: Result<Schema, SchemaError>)
    ensures
        match r {
            Ok(s) => {
                &&& first_dup(headers.deep_view()) is None
                &&& s@ == inferred_schema(headers.deep_view())
                &&& schema_wf(s@)
            },
            Err(e) => {
                &&& e matches SchemaError::DuplicateName { first, second }
                &&& first_dup(headers.deep_view()) == Some((first as int, second as int))
            },
        },
{
    let ghost hv = headers.deep_view();
    match find_first_dup(headers) {
        Some((i, j)) => Err(SchemaError::DuplicateName { first: i, second: j }),
        None => {
            let mut columns: Vec<ColumnDesc> = Vec::new();
            let n = headers.len();
            let mut k: usize = 0;
            while k < n
                invariant
                    k <= n == hv.len() <= usize::MAX,
                    hv == headers.deep_view(),
                    columns@.len() == k,
                    forall|l: int| 0 <= l < k ==> (#[trigger] columns@[l])@ == inferred_schema(
                        hv,
                    )[l],
                decreases n - k,
            {
                let mut name: Vec<u8> = Vec::new();
                let src = &headers[k];
                let m = src.len();
                let mut p: usize = 0;
                while p < m
                    invariant
                        p <= m == src@.len(),
                        name@ =~= src@.take(p as int),
                    decreases m - p,
                {
                    name.push(src[p]);
                    p = p + 1;
                }
                proof {
                    assert(name@ =~= src@);
                    assert(hv[k as int] == src@);
                }
                let ty = infer_type(&name);
                columns.push(ColumnDesc { name, ty, nullable: true });
                proof {
                    assert(columns@[k as int]@ == inferred_schema(hv)[k as int]);
                }
                k = k + 1;
            }
            let s = Schema { columns };
            proof {
                assert(s@ =~= inferred_schema(hv));
                lemma_no_dup_distinct(hv);
                assert forall|a: int, b: int| 0 <= a < b < s@.len() implies s@[a].name
                    != s@[b].name by {
                    assert(s@[a].name == hv[a] && s@[b].name == hv[b]);
                }
            }
            Ok(s)
        },
    }
}

/// Where the schema for a run comes from: heuristic inference from the
/// header row, or an explicit schema supplied by the caller.
pub enum SchemaSource {
    Infer,
    Fixed(Schema),
}

/// Mathematical model of a [`SchemaSource`].
pub ghost enum SchemaSourceV {
    Infer,
    Fixed(Seq<ColumnDescV>),
}

impl View for SchemaSource {
    type V = SchemaSourceV;

    open spec fn view(&self) -> SchemaSourceV {
        match self {
            SchemaSource::Infer => SchemaSourceV::Infer,
            SchemaSource::Fixed(s) => SchemaSourceV::Fixed(s@),
        }
    }
}

/// The schema a run uses, or the error that rejects it: an inferred
/// schema must have unique header names; an explicit schema must have
/// one column per header field and unique column names.
pub open spec fn schema_of_source(src: SchemaSourceV, headers: Seq<Seq<u8>>) -> Result<
    Seq<ColumnDescV>,
    SchemaError,
> {
    match src {
        SchemaSourceV::Infer => match first_dup(headers) {
            Some((i, j)) => Err(
                SchemaError::DuplicateName { first: i as usize, second: j as usize },
            ),
            None => Ok(inferred_schema(headers)),
        },
        SchemaSourceV::Fixed(s) => if s.len() != headers.len() {
            Err(
                SchemaError::ColumnCountMismatch {
                    expected: s.len() as usize,
                    found: headers.len() as usize,
                },
            )
        } else {
            match first_dup(s.map_values(|d: ColumnDescV| d.name)) {
                Some((i, j)) => Err(
                    SchemaError::DuplicateName { first: i as usize, second: j as usize },
                ),
                None => Ok(s),
            }
        },
    }
}

/// Builds the schema for a run from its source and the header row.
pub fn build_schema(source: SchemaSource, headers: &Vec<Vec<u8>>) -> (r: Result<
    Schema,
    SchemaError,
>)
    requires
        headers@.len() <= usize::MAX,
    ensures
        match r {
            Ok(s) => {
                &&& schema_of_source(source@, headers.deep_view()) == Ok::<
                    Seq<ColumnDescV>,
                    SchemaError,
                >(s@)
                &&& schema_wf(s@)
            },
            Err(e) => schema_of_source(source@, headers.deep_view()) == Err::<
                Seq<ColumnDescV>,
                SchemaError,
            >(e),
        },
{
    match source {
        SchemaSource::Infer => infer_schema(headers),
        SchemaSource::Fixed(s) => {
            if s.len() != headers.len() {
                let expected = s.len();
                return Err(
                    SchemaError::ColumnCountMismatch { expected, found: headers.len() },
                );
            }
            let mut names: Vec<Vec<u8>> = Vec::new();
            let n = s.len();
            let mut k: usize = 0;
            while k < n
                invariant
                    k <= n == s@.len() <= usize::MAX,
                    names@.len() == k,
                    forall|l: int| 0 <= l < k ==> (#[trigger] names@[l])@ == s@[l].name,
                decreases n - k,
            {
                let mut name: Vec<u8> = Vec::new();
                let src_name = &s.columns[k].name;
                let m = src_name.len();
                let mut p: usize = 0;
                while p < m
                    invariant
                        p <= m == src_name@.len(),
                        name@ =~= src_name@.take(p as int),
                    decreases m - p,
                {
                    name.push(src_name[p]);
                    p = p + 1;
                }
                proof {
                    assert(name@ =~= src_name@);
                    assert(s@[k as int].name == src_name@);
                }
                names.push(name);
                k = k + 1;
            }
            proof {
                assert forall|l: int| 0 <= l < names@.len() implies #[trigger] names.deep_view()[l]
                    == s@.map_values(|d: ColumnDescV| d.name)[l] by {
                    assert(names@[l].deep_view() =~= names@[l]@);
                }
                assert(names.deep_view() =~= s@.map_values(|d: ColumnDescV| d.name));
            }
            match find_first_dup(&names) {
                Some((i, j)) => Err(SchemaError::DuplicateName { first: i, second: j }),
                None => {
                    proof {
                        let ghost nv = s@.map_values(|d: ColumnDescV| d.name);
                        lemma_no_dup_distinct(nv);
                        assert forall|a: int, b: int| 0 <= a < b < s@.len() implies s@[a].name
                            != s@[b].name by {
                            assert(nv[a] == s@[a].name && nv[b] == s@[b].name);
                        }
                    }
                    Ok(s)
                },
            }
        },
    }
}

} // verus!
