//! The conversion pipeline: derive or accept a schema, validate every
//! record before any conversion commits, parse the validated rows into
//! typed columns, and serialize the sealed batch into container bytes.

use vstd::prelude::*;

use crate::bytes::{copy_fields, strip_bom, strip_bom_spec};
use crate::codec::{enc_batch, encode_batch, dec_batch, decode_batch, ContainerFormatError};
use crate::column::{batch_rows, batch_wf, values_len, Batch, BatchV};
use crate::convert::{
    build_batch, convert_spec, rows_first_bad, ConversionError, ConversionErrorV,
    lemma_rows_first_bad_bounds,
};
use crate::csv_text::{csv_records_of, split_csv_records};
use crate::schema::{
    build_schema, schema_of_source, ColumnDescV, Schema, SchemaError, SchemaSource, SchemaSourceV,
};
use crate::validate::{
    lemma_validated_rectangular, rows_violation, validate_rows, ValidationError,
};

verus! {

/// Everything that can end a conversion run.
#[derive(Debug, PartialEq, Eq)]
pub enum PipelineError {
    /// The input has no header row at all.
    MissingHeader,
    /// The input has more records than line numbering can address.
    TooManyRecords,
    /// The schema could not be built.
    Schema(SchemaError),
    /// A row failed structural validation.
    Validation(ValidationError),
    /// A field failed to parse as its column's type.
    Conversion(ConversionError),
}

/// Mathematical model of a [`PipelineError`].
pub ghost enum PipelineErrorV {
    MissingHeader,
    TooManyRecords,
    Schema(SchemaError),
    Validation(ValidationError),
    Conversion(ConversionErrorV),
}

impl View for PipelineError {
    type V = PipelineErrorV;

    open spec fn view(&self) -> PipelineErrorV {
        match self {
            PipelineError::MissingHeader => PipelineErrorV::MissingHeader,
            PipelineError::TooManyRecords => PipelineErrorV::TooManyRecords,
            PipelineError::Schema(e) => PipelineErrorV::Schema(*e),
            PipelineError::Validation(e) => PipelineErrorV::Validation(*e),
            PipelineError::Conversion(e) => PipelineErrorV::Conversion(e@),
        }
    }
}

/// What one full run yields for the given records and schema source:
/// the container bytes, or the first error in pipeline order --
/// missing header, schema construction, structural validation (whole
/// input, before any conversion), then type parsing.
pub open spec fn pipeline_spec(records: Seq<Seq<Seq<u8>>>, src: SchemaSourceV) -> Result<
    Seq<u8>,
    PipelineErrorV,
> {
    if records.len() == 0 {
        Err(PipelineErrorV::MissingHeader)
    } else {
        let headers = records[0];
        let rows = records.skip(1);
        match schema_of_source(src, headers) {
            Err(se) => Err(PipelineErrorV::Schema(se)),
            Ok(sch) => match rows_violation(sch.len() as int, rows, 2) {
                Some(ve) => Err(PipelineErrorV::Validation(ve)),
                None => match convert_spec(sch, rows) {
                    Err(ce) => Err(PipelineErrorV::Conversion(ce)),
                    Ok(b) => Ok(enc_batch(b)),
                },
            },
        }
    }
}

/// Runs the pipeline on already-split records: the first record is the
/// header, the rest are data rows.
pub fn convert_records(records: &Vec<Vec<Vec<u8>>>, source: SchemaSource) -> (r: Result<
    Vec<u8>,
    PipelineError,
>)
    requires
        records@.len() + 2 <= usize::MAX,
    ensures
        match r {
            Ok(out) => pipeline_spec(records.deep_view(), source@) == Ok::<Seq<u8>, PipelineErrorV>(
                out@,
            ),
            Err(e) => pipeline_spec(records.deep_view(), source@) == Err::<
                Seq<u8>,
                PipelineErrorV,
            >(e@),
        },
{
    let ghost recs = records.deep_view();
    proof {
        assert(forall|k: int| 0 <= k < recs.len() ==> #[trigger] recs[k] == records@[k].deep_view());
    }
    if records.len() == 0 {
        return Err(PipelineError::MissingHeader);
    }
    let headers = copy_fields(&records[0]);
    proof {
        assert(headers.deep_view() == recs[0]);
    }
    let n = records.len();
    let mut rows: Vec<Vec<Vec<u8>>> = Vec::new();
    let mut i: usize = 1;
    while i < n
        invariant
            1 <= i <= n == recs.len(),
            recs == records.deep_view(),
            forall|k: int| 0 <= k < recs.len() ==> #[trigger] recs[k] == records@[k].deep_view(),
            rows@.len() == i - 1,
            forall|l: int| 0 <= l < i - 1 ==> (#[trigger] rows@[l]).deep_view() == recs[l + 1],
        decreases n - i,
    {
        rows.push(copy_fields(&records[i]));
        i = i + 1;
    }
    proof {
        assert forall|l: int| 0 <= l < rows@.len() implies #[trigger] rows.deep_view()[l]
            == recs.skip(1)[l] by {
            assert(rows@[l].deep_view() == recs[l + 1]);
        }
        assert(rows.deep_view() =~= recs.skip(1));
    }
    let _headers_len = headers.len();
    assert(headers@.len() <= usize::MAX);
    let schema = match build_schema(source, &headers) {
        Ok(s) => s,
        Err(se) => {
            return Err(PipelineError::Schema(se));
        },
    };
    let ncols = schema.len();
    match validate_rows(ncols, &rows) {
        Ok(_) => (),
        Err(ve) => {
            return Err(PipelineError::Validation(ve));
        },
    }
    proof {
        lemma_validated_rectangular(ncols as int, rows.deep_view(), 2);
        assert forall|l: int| 0 <= l < rows@.len() implies (#[trigger] rows@[l])@.len()
            == ncols by {
            assert(rows.deep_view()[l] == rows@[l].deep_view());
        }
    }
    let batch = match build_batch(schema, &rows) {
        Ok(b) => b,
        Err(ce) => {
            return Err(PipelineError::Conversion(ce));
        },
    };
    let out = encode_batch(&batch);
    Ok(out)
}

/// The single entry point of a conversion run: strips an optional
/// byte-order mark, splits the text into records, and runs the
/// pipeline, producing the bytes of the self-describing container.
pub fn validate_and_convert(input: &Vec<u8>, source: SchemaSource) -> (r: Result<
    Vec<u8>,
    PipelineError,
>)
    ensures
        ({
            let recs = csv_records_of(strip_bom_spec(input@));
            if recs.len() + 2 <= usize::MAX {
                match r {
                    Ok(out) => pipeline_spec(recs, source@) == Ok::<Seq<u8>, PipelineErrorV>(out@),
                    Err(e) => pipeline_spec(recs, source@) == Err::<Seq<u8>, PipelineErrorV>(e@),
                }
            } else {
                r matches Err(PipelineError::TooManyRecords)
            }
        }),
{
    let stripped = strip_bom(input);
    let records = split_csv_records(&stripped);
    proof {
        assert(records@.len() == records.deep_view().len());
    }
    if records.len() > usize::MAX - 2 {
        return Err(PipelineError::TooManyRecords);
    }
    convert_records(&records, source)
}

/// The read-side entry point for analysis consumers: recovers the
/// batch that container bytes encode, read-only.
pub fn read_columns(data: &Vec<u8>) -> (r: Result<Batch, ContainerFormatError>)
    ensures
        match r {
            Ok(b) => {
                &&& dec_batch(data@) == Ok::<BatchV, ContainerFormatError>(b@)
                &&& batch_wf(b@)
            },
            Err(e) => dec_batch(data@) == Err::<BatchV, ContainerFormatError>(e),
        },
{
    decode_batch(data)
}

/// Validation precedes conversion: when any row of the input is
/// structurally invalid, the run yields exactly that first validation
/// error and produces no container bytes, whatever the other rows
/// hold.
pub proof fn lemma_validation_precedes_conversion(
    records: Seq<Seq<Seq<u8>>>,
    src: SchemaSourceV,
    e: ValidationError,
)
    requires
        records.len() > 0,
        schema_of_source(src, records[0]) is Ok,
        rows_violation(
            schema_of_source(src, records[0])->Ok_0.len() as int,
            records.skip(1),
            2,
        ) == Some(e),
    ensures
        pipeline_spec(records, src) == Err::<Seq<u8>, PipelineErrorV>(
            PipelineErrorV::Validation(e),
        ),
{
}

/// Type-parse fast-fail: when every row is structurally valid but some
/// field does not parse as its column's declared type, the run yields
/// a conversion error naming the first such field's line, column and
/// raw text, and produces no container bytes.
pub proof fn lemma_type_parse_fast_fail(
    records: Seq<Seq<Seq<u8>>>,
    src: SchemaSourceV,
    i: int,
    j: int,
)
    requires
        records.len() > 0,
        schema_of_source(src, records[0]) is Ok,
        rows_violation(
            schema_of_source(src, records[0])->Ok_0.len() as int,
            records.skip(1),
            2,
        ) is None,
        rows_first_bad(schema_of_source(src, records[0])->Ok_0, records.skip(1)) == Some((i, j)),
    ensures
        pipeline_spec(records, src) == Err::<Seq<u8>, PipelineErrorV>(
            PipelineErrorV::Conversion(
                ConversionErrorV {
                    line: (i + 2) as nat,
                    column: schema_of_source(src, records[0])->Ok_0[j].name,
                    raw_value: records.skip(1)[i][j],
                },
            ),
        ),
{
    lemma_rows_first_bad_bounds(schema_of_source(src, records[0])->Ok_0, records.skip(1));
}

/// Column-length invariant: every column of a successfully converted
/// batch has length equal to the number of validated data rows.
pub proof fn lemma_column_length_invariant(
    sch: Seq<ColumnDescV>,
    rows: Seq<Seq<Seq<u8>>>,
    b: BatchV,
)
    requires
        convert_spec(sch, rows) == Ok::<BatchV, ConversionErrorV>(b),
    ensures
        b.columns.len() == sch.len(),
        forall|j: int| 0 <= j < b.columns.len() ==> values_len((#[trigger] b.columns[j]).values)
            == rows.len(),
{
    assert forall|j: int| 0 <= j < b.columns.len() implies values_len(
        (#[trigger] b.columns[j]).values,
    ) == rows.len() by {
        assert(b.columns[j] == crate::convert::column_spec(sch[j], rows, j));
    }
}

/// Idempotence: the pipeline is a function of its input, so two runs
/// on the same records and schema source yield identical container
/// bytes (or the identical error).
pub proof fn lemma_pipeline_deterministic(
    r1: Seq<Seq<Seq<u8>>>,
    r2: Seq<Seq<Seq<u8>>>,
    s1: SchemaSourceV,
    s2: SchemaSourceV,
)
    requires
        r1 == r2,
        s1 == s2,
    ensures
        pipeline_spec(r1, s1) == pipeline_spec(r2, s2),
{
}

} // verus!
