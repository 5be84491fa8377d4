//! The text-record source: the `csv` crate splits the raw byte stream
//! into records behind a named, trusted boundary. Everything after
//! this split is verified against the name given to its result.

use vstd::prelude::*;

verus! {

/// The records that the `csv` crate's reader yields for a byte
/// stream, one sequence of raw byte fields per record, in input
/// order. The result is a function of the input bytes alone.
pub uninterp spec fn csv_records_of(s: Seq<u8>) -> Seq<Seq<Seq<u8>>>;

/// Relies on csv::Reader::read_byte_record: configured with
/// `has_headers(false)` and `flexible(true)` over an in-memory slice
/// it yields every record of the byte stream in order, and cannot
/// fail -- reads from a slice are infallible and the record-length
/// check is disabled.
#[verifier::external_body]
pub(crate) fn split_csv_records(data: &Vec<u8>) -> (r: Vec<Vec<Vec<u8>>>)
    ensures
        r.deep_view() == csv_records_of(data@),
{
    let mut rdr = csv::ReaderBuilder::new()
        .has_headers(false)
        .flexible(true)
        .from_reader(data.as_slice());
    let mut out = Vec::new();
    let mut record = csv::ByteRecord::new();
    while let Ok(true) = rdr.read_byte_record(&mut record) {
        out.push(record.iter().map(|f| f.to_vec()).collect());
    }
    out
}

} // verus!
