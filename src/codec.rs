use vstd::prelude::*;

verus! {

/// The error type of the csv crate, carried through to the caller.
#[verifier::external_type_specification]
#[verifier::external_body]
pub struct ExCsvError(csv::Error);

/// The fields of one record, each as its characters.
pub open spec fn record_view(fields: Seq<String>) -> Seq<Seq<char>> {
    fields.map_values(|f: String| f@)
}

/// The records of a table, each as the characters of its fields.
pub open spec fn rows_view(rows: Seq<Vec<String>>) -> Seq<Seq<Seq<char>>> {
    rows.map_values(|r: Vec<String>| record_view(r@))
}

/// The records that a delimited reader finds in `data` (no header row,
/// `delim` between fields), or `None` where it stops on an error.
pub uninterp spec fn parsed_rows(data: Seq<u8>, delim: u8) -> Option<Seq<Seq<Seq<char>>>>;

/// The bytes that a delimited writer produces for one record (no header
/// row, `delim` between fields), or `None` where it fails.
pub uninterp spec fn written_record(fields: Seq<Seq<char>>, delim: u8) -> Option<Seq<u8>>;

/// Relies on `csv::Reader::records` over a byte slice, built by
/// `csv::ReaderBuilder` without a header row and with the given delimiter:
/// every record as strings, or its first error (bad quoting, invalid UTF-8,
/// a record whose field count differs from the first one's).
#[verifier::external_body]
pub(crate) fn parse_records(data: &[u8], delim: u8) -> (r: Result<Vec<Vec<String>>, csv::Error>)
    ensures
        match r {
            Ok(rows) => parsed_rows(data@, delim) == Some(rows_view(rows@)),
            Err(_) => parsed_rows(data@, delim) is None,
        },
{
    let mut reader = csv::ReaderBuilder::new().has_headers(false).delimiter(delim).from_reader(
        data,
    );
    reader.records().map(|rec| rec.map(|fields| fields.iter().map(String::from).collect())).collect()
}

/// Relies on `csv::Writer::write_record` into a `Vec<u8>`, built by
/// `csv::WriterBuilder` without a header row and with the given delimiter,
/// then `into_inner`: the record's bytes, fields quoted where needed,
/// followed by the record terminator.
#[verifier::external_body]
pub(crate) fn write_record(fields: &Vec<String>, delim: u8) -> (r: Result<Vec<u8>, csv::Error>)
    ensures
        match r {
            Ok(bytes) => written_record(record_view(fields@), delim) == Some(bytes@),
            Err(_) => written_record(record_view(fields@), delim) is None,
        },
{
    let mut writer = csv::WriterBuilder::new().has_headers(false).delimiter(delim).from_writer(
        Vec::new(),
    );
    writer.write_record(fields)?;
    writer.into_inner().map_err(|e| csv::Error::from(e.into_error()))
}

} // verus!
