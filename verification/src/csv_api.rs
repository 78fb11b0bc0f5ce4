//! The `csv` crate's reader, and what the library relies on about it.

use vstd::prelude::*;

verus! {

#[verifier::external_type_specification]
#[verifier::external_body]
pub struct ExCsvError(csv::Error);

/// The header record and the data records that the `csv` reader (default
/// settings but for the delimiter) reads from `input`, or `None` when it
/// reports an error (such as a record whose length differs from the header's,
/// or text that is not UTF-8).
pub uninterp spec fn csv_records(input: Seq<u8>, delimiter: u8) -> Option<(Seq<Seq<char>>, Seq<Seq<Seq<char>>>)>;

/// Reads `input` with `csv::ReaderBuilder::new().delimiter(delimiter)`: the
/// header record (`Reader::headers`), then every record (`Reader::records`).
/// The reader is not flexible (its default), so it reports an error for a
/// record whose number of fields differs from the header's: every record
/// returned has as many fields as the header.
#[verifier::external_body]
pub(crate) fn read_csv(input: &[u8], delimiter: u8) -> (r: Result<(Vec<String>, Vec<Vec<String>>), csv::Error>)
    ensures
        r matches Ok(v) ==> csv_records(input@, delimiter) == Some((v.0.deep_view(), v.1.deep_view())),
        r is Err ==> csv_records(input@, delimiter) is None,
        r matches Ok(v) ==> forall|i: int|
            0 <= i < v.1@.len() ==> #[trigger] v.1@[i]@.len() == v.0@.len(),
{
    let mut rdr = csv::ReaderBuilder::new().delimiter(delimiter).from_reader(input);
    let headers: Vec<String> = rdr.headers()?.iter().map(str::to_string).collect();
    let rows: Result<Vec<Vec<String>>, csv::Error> = rdr
        .records()
        .map(|r| r.map(|rec| rec.iter().map(str::to_string).collect()))
        .collect();
    Ok((headers, rows?))
}

} // verus!
