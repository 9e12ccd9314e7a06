//! Reading and writing CSV rows with the `csv` crate, without a header row
//! and with rows of any length.
use vstd::prelude::*;

verus! {

/// The rows that the `csv` crate reads from `bytes` (no header row, rows of
/// any length), up to the first row that it cannot read; and whether there
/// was such a row.
pub uninterp spec fn csv_read_rows(bytes: Seq<u8>) -> (Seq<Seq<Seq<char>>>, bool);

/// The bytes that the `csv` crate writes for `rows` (no header row, rows of
/// any length, fields quoted where needed, each row ended by a newline).
pub uninterp spec fn csv_written(rows: Seq<Seq<Seq<char>>>) -> Seq<u8>;

/// Every row has two fields or more.
pub open spec fn rows_have_two_fields(rows: Seq<Seq<Seq<char>>>) -> bool {
    forall|i: int| 0 <= i < rows.len() ==> (#[trigger] rows[i]).len() >= 2
}

/// The rows of a CSV text, as far as they could be read.
pub struct CsvRecords {
    pub records: Vec<Vec<String>>,
    pub failed: bool,
}

impl View for CsvRecords {
    type V = (Seq<Seq<Seq<char>>>, bool);

    open spec fn view(&self) -> (Seq<Seq<Seq<char>>>, bool) {
        (self.records.deep_view(), self.failed)
    }
}

/// Reads the rows of `bytes` with `csv::ReaderBuilder` (no header row,
/// flexible row length): every row up to the first one that the reader
/// reports an error for, which happens where a field is not UTF-8, and
/// whether that happened.  The contract names the result
/// (`csv_read_rows`); it does not spell out the CSV grammar.
#[verifier::external_body]
pub(crate) fn read_csv_rows(bytes: &[u8]) -> (res: CsvRecords)
    ensures
        res@ == csv_read_rows(bytes@),
{
    let mut rdr = csv::ReaderBuilder::new().has_headers(false).flexible(true).from_reader(bytes);
    let mut records: Vec<Vec<String>> = Vec::new();
    for row in rdr.records() {
        match row {
            Ok(r) => records.push(r.iter().map(|f| f.to_string()).collect()),
            Err(_) => return CsvRecords { records, failed: true },
        }
    }
    CsvRecords { records, failed: false }
}

impl CsvRecords {
    /// The rows of a catalog file's bytes, as the `csv` crate reads them (no
    /// header row, rows of any length), up to the first row it cannot read.
    pub fn from_bytes(bytes: &[u8]) -> (res: CsvRecords)
        ensures
            res@ == csv_read_rows(bytes@),
    {
        read_csv_rows(bytes)
    }
}

/// The first field of the first row does not start with a byte-order mark
/// (U+FEFF): the `csv` reader drops such a mark from the start of its input.
pub open spec fn no_leading_bom(rows: Seq<Seq<Seq<char>>>) -> bool {
    rows.len() > 0 && rows[0].len() > 0 && rows[0][0].len() > 0 ==> rows[0][0][0] != '\u{feff}'
}

/// Writes `rows` with `csv::WriterBuilder` (no header row, flexible row
/// length) into a byte buffer.  Writing into memory does not fail (the
/// writer's only errors are those of the buffer it writes to, and the
/// row-length check, which `flexible` turns off), and the bytes are
/// `csv_written(rows)`.  Where every row has two fields or more and the first
/// field does not start with U+FEFF, the `csv` reader reads them back as
/// exactly these rows: the writer quotes every field that holds a comma, a
/// quote, a carriage return or a newline and doubles the quotes inside; it
/// quotes an empty field only when it is alone in its row, and it does not
/// quote a leading U+FEFF, which the reader would drop.
#[verifier::external_body]
pub(crate) fn write_csv_rows(rows: &Vec<Vec<String>>) -> (res: Result<Vec<u8>, csv::Error>)
    ensures
        res is Ok,
        res matches Ok(b) ==> b@ == csv_written(rows.deep_view()),
        res matches Ok(b) ==> (rows_have_two_fields(rows.deep_view()) && no_leading_bom(rows.deep_view())
            ==> csv_read_rows(b@) == (rows.deep_view(), false)),
{
    let mut wtr = csv::WriterBuilder::new().has_headers(false).flexible(true).from_writer(Vec::new());
    for row in rows {
        wtr.write_record(row)?;
    }
    wtr.into_inner().map_err(|e| csv::Error::from(e.into_error()))
}

} // verus!
