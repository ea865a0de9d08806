//! The CSV format: a header row with the eight field names in record order,
//! then one row per record. Rows are split into fields, and fields are
//! quoted, by the `csv` crate; this module checks the header and turns
//! fields into records and back.
use crate::chars::{chars_of, string_from_chars};
use crate::decimal::{decimal, decimal_chars, parse_u64, parse_u64_radix, parse_u64_radix_range};
use crate::errors::{ErrorKind, ParseError};
use crate::formats::{
    field_name, field_names, message_with_number, records_result, Parser, RecordView, Serializer,
    TransactionStatus, TransactionType, YPBankRecord,
};
use vstd::prelude::*;

verus! {

broadcast use vstd::string::group_string_axioms;

/// CSV format parser and serializer for YPBank records.
pub struct YPBankCSV;

/// The rows that the `csv` crate reads from `data` (each row a sequence of
/// fields), up to its first error, and whether it stopped on an error.
pub uninterp spec fn csv_read(data: Seq<u8>) -> (Seq<Seq<Seq<char>>>, bool);

/// The bytes that the `csv` crate writes for `rows`.
pub uninterp spec fn csv_written(rows: Seq<Seq<Seq<char>>>) -> Seq<u8>;

/// Rows that all have as many fields as the first.
pub open spec fn equal_lengths(rows: Seq<Seq<Seq<char>>>) -> bool {
    forall|i: int| 0 <= i < rows.len() ==> #[trigger] rows[i].len() == rows[0].len()
}

/// Rows that the `csv` crate reads back as written: they all have the same
/// positive number of fields, and the data does not open with a byte-order
/// mark (which the reader drops).
pub open spec fn rows_read_back(rows: Seq<Seq<Seq<char>>>) -> bool {
    &&& equal_lengths(rows)
    &&& rows.len() > 0 ==> rows[0].len() > 0
    &&& rows.len() > 0 ==> (rows[0][0].len() == 0 || rows[0][0][0] != '\u{feff}')
}

/// Reads all rows of CSV data, none of them taken as a header.
///
/// Calls `csv::Reader::records` on a reader built by `csv::ReaderBuilder`
/// with `has_headers(false)` and otherwise default settings, and keeps the
/// fields of each row until the first error (the error's message is kept).
/// The contract names what it returns; it says nothing of the message.
#[verifier::external_body]
fn csv_read_rows(data: &[u8]) -> (r: (Vec<Vec<String>>, Option<String>))
    ensures
        r.0.deep_view() == csv_read(data@).0,
        (r.1 is Some) == csv_read(data@).1,
{
    let mut reader = ::csv::ReaderBuilder::new().has_headers(false).from_reader(data);
    let mut rows: Vec<Vec<String>> = Vec::new();
    for row in reader.records() {
        match row {
            Ok(row) => rows.push(row.iter().map(|f| f.to_string()).collect()),
            Err(e) => return (rows, Some(e.to_string())),
        }
    }
    (rows, None)
}

/// Writes rows as CSV data.
///
/// Calls `csv::Writer::write_record` for each row on a writer built by
/// `csv::WriterBuilder` with `has_headers(false)` and otherwise default
/// settings (quotes only where necessary), into a `Vec<u8>`, then
/// `into_inner`. The contract names the bytes written, and claims what the
/// crate's writer is built for: the default reader reads the rows back
/// (the writer quotes every field holding a quote, a comma, `\r` or `\n`, and
/// a lone empty field), as long as the rows have one positive length and the
/// data does not open with a byte-order mark. It also claims success when all
/// rows have as many fields as the first: the writer's own check rejects
/// only a row of another length, and its other errors are those of the
/// underlying writer, here a `Vec<u8>` that is appended to.
#[verifier::external_body]
fn csv_write_rows(rows: &Vec<Vec<String>>) -> (r: Option<Vec<u8>>)
    ensures
        equal_lengths(rows.deep_view()) ==> r is Some,
        r matches Some(b) ==> b@ == csv_written(rows.deep_view()),
        r matches Some(b) ==> (rows_read_back(rows.deep_view()) ==> csv_read(b@) == (
        rows.deep_view(),
        false,
        )),
{
    let mut writer = ::csv::WriterBuilder::new().has_headers(false).from_writer(Vec::new());
    for row in rows {
        if writer.write_record(row).is_err() {
            return None;
        }
    }
    writer.into_inner().ok()
}

/// A number field as the `csv` crate deserializes it: hexadecimal after a
/// `0x` prefix, decimal otherwise.
pub open spec fn csv_u64(f: Seq<char>) -> Option<u64> {
    if f.len() >= 2 && f[0] == '0' && f[1] == 'x' {
        parse_u64_radix(f.skip(2), 16)
    } else {
        parse_u64(f)
    }
}

/// The record that a data row holds, if its fields are valid.
pub open spec fn csv_record(row: Seq<Seq<char>>) -> Option<RecordView> {
    if row.len() < 8 {
        None
    } else {
        match (
            csv_u64(row[0]),
            TransactionType::from_name(row[1]),
            csv_u64(row[2]),
            csv_u64(row[3]),
            csv_u64(row[4]),
            csv_u64(row[5]),
            TransactionStatus::from_name(row[6]),
        ) {
            (
                Some(tx_id),
                Some(tx_type),
                Some(from_user_id),
                Some(to_user_id),
                Some(amount),
                Some(timestamp),
                Some(status),
            ) => Some(
                RecordView {
                    tx_id,
                    tx_type,
                    from_user_id,
                    to_user_id,
                    amount,
                    timestamp,
                    status,
                    description: row[7],
                },
            ),
            _ => None,
        }
    }
}

/// The records of the data rows, in order; a bad row, or a read error after
/// the last row, is a `Csv` error.
pub open spec fn csv_records(rows: Seq<Seq<Seq<char>>>, failed: bool) -> Result<
    Seq<RecordView>,
    ErrorKind,
>
    decreases rows.len(),
{
    if rows.len() == 0 {
        if failed {
            Err(ErrorKind::Csv)
        } else {
            Ok(seq![])
        }
    } else {
        match csv_record(rows[0]) {
            None => Err(ErrorKind::Csv),
            Some(r) => match csv_records(rows.drop_first(), failed) {
                Ok(rs) => Ok(seq![r] + rs),
                Err(k) => Err(k),
            },
        }
    }
}

/// What parsing gives for the rows that the reader produced: the first row
/// must be exactly the eight field names.
pub open spec fn csv_parse_rows(rows: Seq<Seq<Seq<char>>>, failed: bool) -> Result<
    Seq<RecordView>,
    ErrorKind,
> {
    if rows.len() == 0 {
        if failed {
            Err(ErrorKind::Csv)
        } else {
            Err(ErrorKind::InvalidField)
        }
    } else if rows[0] != field_names() {
        Err(ErrorKind::InvalidField)
    } else {
        csv_records(rows.drop_first(), failed)
    }
}

/// The fields of a record's row.
pub open spec fn record_row(r: RecordView) -> Seq<Seq<char>> {
    seq![
        decimal(r.tx_id as nat),
        r.tx_type.name(),
        decimal(r.from_user_id as nat),
        decimal(r.to_user_id as nat),
        decimal(r.amount as nat),
        decimal(r.timestamp as nat),
        r.status.name(),
        r.description,
    ]
}

/// The rows written for `rs`: the header, then a row per record.
pub open spec fn csv_rows_of(rs: Seq<RecordView>) -> Seq<Seq<Seq<char>>> {
    seq![field_names()] + rs.map_values(|r: RecordView| record_row(r))
}

/// A number field, read as the `csv` crate reads it.
fn csv_number(f: &[char]) -> (r: Option<u64>)
    ensures
        r == csv_u64(f@),
{
    if f.len() >= 2 && f[0] == '0' && f[1] == 'x' {
        assert(f@.subrange(2, f@.len() as int) =~= f@.skip(2));
        parse_u64_radix_range(f, 2, f.len(), 16)
    } else {
        assert(f@.subrange(0, f@.len() as int) =~= f@);
        parse_u64_radix_range(f, 0, f.len(), 10)
    }
}

/// The characters of field `i` of `row`.
fn field_chars(row: &Vec<String>, i: usize) -> (r: Vec<char>)
    requires
        i < row@.len(),
    ensures
        r@ == row.deep_view()[i as int],
{
    chars_of(row[i].as_str())
}

/// The record of a data row, or a `Csv` error.
fn row_record(row: &Vec<String>) -> (r: Result<YPBankRecord, ParseError>)
    ensures
        match csv_record(row.deep_view()) {
            Some(v) => r matches Ok(rec) && rec@ == v,
            None => r matches Err(e) && e.kind() == ErrorKind::Csv,
        },
{
    if row.len() < 8 {
        return Err(ParseError::Csv("found record with fewer fields than the header".to_string()));
    }
    let tx_id = csv_number(&field_chars(row, 0));
    let tx_type = TransactionType::from_chars(&field_chars(row, 1));
    let from_user_id = csv_number(&field_chars(row, 2));
    let to_user_id = csv_number(&field_chars(row, 3));
    let amount = csv_number(&field_chars(row, 4));
    let timestamp = csv_number(&field_chars(row, 5));
    let status = TransactionStatus::from_chars(&field_chars(row, 6));
    match (tx_id, tx_type, from_user_id, to_user_id, amount, timestamp, status) {
        (
            Some(tx_id),
            Some(tx_type),
            Some(from_user_id),
            Some(to_user_id),
            Some(amount),
            Some(timestamp),
            Some(status),
        ) => {
            let description = row[7].clone();
            Ok(
                YPBankRecord {
                    tx_id,
                    tx_type,
                    from_user_id,
                    to_user_id,
                    amount,
                    timestamp,
                    status,
                    description,
                },
            )
        },
        _ => Err(ParseError::Csv("a field holds an invalid value".to_string())),
    }
}

/// `i` is the first column where `header` differs from the field names.
pub open spec fn first_bad_column(header: Seq<Seq<char>>, i: int) -> bool {
    &&& 0 <= i < 8
    &&& header[i] != field_names()[i]
    &&& forall|j: int| 0 <= j < i ==> header[j] == field_names()[j]
}

/// The error for a header row that is not the eight field names: a count of
/// columns other than eight is reported as such, otherwise the first column
/// that differs, with the name expected and the one found.
pub open spec fn header_error(header: Seq<Seq<char>>, e: ParseError) -> bool {
    match e {
        ParseError::InvalidField { field, value } => if header.len() != 8 {
            &&& field@ == "headers"@
            &&& value@ == "Expected 8 columns, got "@ + decimal(header.len())
        } else {
            exists|i: int|
                #[trigger] first_bad_column(header, i) && field@ == "column_"@ + decimal(i as nat)
                    && value@ == "expected '"@ + field_names()[i] + "', got '"@ + header[i] + "'"@
        },
        _ => false,
    }
}

/// Checks the header row; `Ok(())` when it is exactly the eight field names.
fn check_header(header: &Vec<String>) -> (r: Result<(), ParseError>)
    ensures
        r is Ok <==> header.deep_view() == field_names(),
        r matches Err(e) ==> e.kind() == ErrorKind::InvalidField && header_error(
            header.deep_view(),
            e,
        ),
{
    if header.len() != 8 {
        assert(header.deep_view().len() != field_names().len());
        return Err(
            ParseError::InvalidField {
                field: "headers".to_string(),
                value: message_with_number("Expected 8 columns, got ", header.len() as u64),
            },
        );
    }
    let mut i: usize = 0;
    while i < 8
        invariant
            header@.len() == 8,
            0 <= i <= 8,
            forall|k: int| 0 <= k < i ==> header.deep_view()[k] == field_names()[k],
        decreases 8 - i,
    {
        let got = field_chars(header, i);
        let expected = field_name(i);
        if !crate::chars::chars_equal(&got, &expected) {
            let mut value = "expected '".to_string();
            value.append(string_from_chars(&expected).as_str());
            value.append("', got '");
            value.append(header[i].as_str());
            value.append("'");
            assert(first_bad_column(header.deep_view(), i as int));
            return Err(
                ParseError::InvalidField {
                    field: message_with_number("column_", i as u64),
                    value,
                },
            );
        }
        i = i + 1;
    }
    assert(header.deep_view() =~= field_names());
    Ok(())
}

impl Parser for YPBankCSV {
    type Item = YPBankRecord;

    open spec fn accepts(data: Seq<u8>) -> bool {
        true
    }

    /// Reads CSV data whose first row is exactly the eight field names
    /// (otherwise `InvalidField`); every other row must hold a valid record
    /// (otherwise `Csv`), as must the data itself.
    fn parse(data: &[u8]) -> (res: Result<Vec<YPBankRecord>, ParseError>)
        ensures
            records_result(res) == csv_parse_rows(csv_read(data@).0, csv_read(data@).1),
            csv_read(data@).0.len() == 0 && !csv_read(data@).1 ==> (res matches Err(e)
                && header_error(seq![], e)),
            csv_read(data@).0.len() > 0 && csv_read(data@).0[0] != field_names() ==> (res matches Err(
                e,
            ) && header_error(csv_read(data@).0[0], e)),
    {
        let (rows, failure) = csv_read_rows(data);
        YPBankCSV::parse_rows(&rows, failure)
    }
}

impl YPBankCSV {
    /// What parsing gives for the rows that the CSV reader produced, and
    /// whether it stopped on an error (with its message): the first row must
    /// be exactly the eight field names (otherwise `InvalidField`, or `Csv`
    /// where the reader failed before any row), every other row must hold a
    /// valid record (otherwise `Csv`), and a reader error is a `Csv` error.
    pub fn parse_rows(rows: &Vec<Vec<String>>, failure: Option<String>) -> (res: Result<
        Vec<YPBankRecord>,
        ParseError,
    >)
        ensures
            records_result(res) == csv_parse_rows(rows.deep_view(), failure is Some),
            rows@.len() == 0 && failure is None ==> (res matches Err(e) && header_error(
                seq![],
                e,
            )),
            rows@.len() > 0 && rows.deep_view()[0] != field_names() ==> (res matches Err(e)
                && header_error(rows.deep_view()[0], e)),
    {
        let ghost all = rows.deep_view();
        let ghost failed = failure is Some;
        if rows.len() == 0 {
            match failure {
                Some(msg) => {
                    return Err(ParseError::Csv(msg));
                },
                None => {
                    return Err(
                        ParseError::InvalidField {
                            field: "headers".to_string(),
                            value: message_with_number("Expected 8 columns, got ", 0),
                        },
                    );
                },
            }
        }
        match check_header(&rows[0]) {
            Ok(()) => {},
            Err(e) => {
                return Err(e);
            },
        }
        let mut records: Vec<YPBankRecord> = Vec::new();
        let mut i: usize = 1;
        assert(all.skip(1) =~= all.drop_first());
        proof {
            match csv_records(all.skip(1), failed) {
                Ok(rs) => {
                    assert(records.deep_view() + rs =~= rs);
                },
                Err(_) => {},
            }
        }
        while i < rows.len()
            invariant
                1 <= i <= rows@.len(),
                all == rows.deep_view(),
                failed == (failure is Some),
                all[0] == field_names(),
                all.len() == rows@.len(),
                csv_records(all.drop_first(), failed) == match csv_records(
                    all.skip(i as int),
                    failed,
                ) {
                    Ok(rs) => Ok(records.deep_view() + rs),
                    Err(k) => Err(k),
                },
            decreases rows@.len() - i,
        {
            let ghost rest = all.skip(i as int);
            assert(rest[0] == rows[i as int].deep_view());
            assert(rest.drop_first() =~= all.skip(i + 1));
            let rec = match row_record(&rows[i]) {
                Ok(rec) => rec,
                Err(e) => {
                    return Err(e);
                },
            };
            let ghost before = records.deep_view();
            let ghost v = rec@;
            records.push(rec);
            assert(records.deep_view() =~= before + seq![v]);
            proof {
                match csv_records(all.skip(i + 1), failed) {
                    Ok(more) => {
                        assert(before + (seq![v] + more) =~= records.deep_view() + more);
                    },
                    Err(_) => {},
                }
            }
            i = i + 1;
        }
        assert(all.skip(i as int) =~= Seq::<Seq<Seq<char>>>::empty());
        match failure {
            Some(msg) => Err(ParseError::Csv(msg)),
            None => {
                assert(records.deep_view() + seq![] =~= records.deep_view());
                Ok(records)
            },
        }
    }
}

/// The fields of a record's row.
fn row_of(rec: &YPBankRecord) -> (row: Vec<String>)
    ensures
        row.deep_view() == record_row(rec@),
{
    let mut row: Vec<String> = Vec::new();
    row.push(string_from_chars(&decimal_chars(rec.tx_id)));
    row.push(rec.tx_type.to_string());
    row.push(string_from_chars(&decimal_chars(rec.from_user_id)));
    row.push(string_from_chars(&decimal_chars(rec.to_user_id)));
    row.push(string_from_chars(&decimal_chars(rec.amount)));
    row.push(string_from_chars(&decimal_chars(rec.timestamp)));
    row.push(rec.status.to_string());
    row.push(rec.description.clone());
    assert(row.deep_view() =~= record_row(rec@));
    row
}

/// The header row.
fn header_row() -> (row: Vec<String>)
    ensures
        row.deep_view() == field_names(),
{
    let mut row: Vec<String> = Vec::new();
    let mut i: usize = 0;
    while i < 8
        invariant
            0 <= i <= 8,
            row@.len() == i,
            row.deep_view() == field_names().take(i as int),
        decreases 8 - i,
    {
        let ghost before = row@;
        let name = string_from_chars(&field_name(i));
        row.push(name);
        assert(row@ == before.push(name));
        assert(row.deep_view() =~= field_names().take(i + 1)) by {
            assert forall|k: int| 0 <= k < i + 1 implies #[trigger] row.deep_view()[k]
                == field_names().take(i + 1)[k] by {
                if k < i {
                    assert(row@[k] == before[k]);
                }
            }
        }
        i = i + 1;
    }
    assert(field_names().take(8) =~= field_names());
    row
}

impl Serializer for YPBankCSV {
    type Item = YPBankRecord;

    /// Writes the header row, then a row per record: numbers in decimal,
    /// type and status by name, and the description as it is.
    fn serialize(data: &[YPBankRecord]) -> (res: Result<Vec<u8>, ParseError>)
        ensures
            res matches Ok(b) && b@ == csv_written(csv_rows_of(data.deep_view())),
            res matches Ok(b) ==> Self::parse_spec(b@) == Ok::<Seq<RecordView>, ErrorKind>(
                data.deep_view(),
            ),
    {
        let rows = YPBankCSV::rows_of_records(data);
        proof {
            lemma_rows_read_back(data.deep_view());
        }
        match csv_write_rows(&rows) {
            Some(bytes) => {
                proof {
                    lemma_csv_rows_parse(data.deep_view());
                }
                Ok(bytes)
            },
            None => Err(ParseError::Csv("failed to write CSV data".to_string())),
        }
    }
}

impl YPBankCSV {
    /// The rows that serializing `data` hands to the CSV writer: the header,
    /// then a row per record.
    pub fn rows_of_records(data: &[YPBankRecord]) -> (rows: Vec<Vec<String>>)
        ensures
            rows.deep_view() == csv_rows_of(data.deep_view()),
    {
        let mut rows: Vec<Vec<String>> = Vec::new();
        rows.push(header_row());
        let mut i: usize = 0;
        while i < data.len()
            invariant
                0 <= i <= data@.len(),
                rows.deep_view() == csv_rows_of(data.deep_view().take(i as int)),
            decreases data@.len() - i,
        {
            let ghost before = rows@;
            let row = row_of(&data[i]);
            rows.push(row);
            proof {
                let dv = data.deep_view();
                assert(rows@ == before.push(row));
                assert(rows.deep_view() =~= csv_rows_of(dv.take(i as int)).push(record_row(
                    dv[i as int],
                ))) by {
                    assert forall|k: int| 0 <= k < rows@.len() implies #[trigger] rows.deep_view()[k]
                        == csv_rows_of(dv.take(i as int)).push(record_row(dv[i as int]))[k] by {
                        if k < before.len() {
                            assert(rows@[k] == before[k]);
                        }
                    }
                }
                assert(dv.take(i + 1) =~= dv.take(i as int).push(dv[i as int]));
                assert(dv.take(i + 1).map_values(|r: RecordView| record_row(r)) =~= dv.take(
                    i as int,
                ).map_values(|r: RecordView| record_row(r)).push(record_row(dv[i as int])));
                assert(rows.deep_view() =~= csv_rows_of(dv.take(i + 1)));
            }
            i = i + 1;
        }
        assert(data.deep_view().take(i as int) =~= data.deep_view());
        rows
    }

    /// What [`YPBankCSV::parse`] gives for `data`.
    pub open spec fn parse_spec(data: Seq<u8>) -> Result<Seq<RecordView>, ErrorKind> {
        csv_parse_rows(csv_read(data).0, csv_read(data).1)
    }
}

/// The rows written for any records have eight fields each and open with
/// `TX_ID`, so the reader reads them back.
proof fn lemma_rows_read_back(rs: Seq<RecordView>)
    ensures
        rows_read_back(csv_rows_of(rs)),
{
    let rows = csv_rows_of(rs);
    assert forall|i: int| 0 <= i < rows.len() implies #[trigger] rows[i].len() == rows[0].len() by {
        if i > 0 {
            assert(rows[i] == record_row(rs[i - 1]));
        }
    }
}

/// The fields written for a record read back as that record.
proof fn lemma_record_row_parses(r: RecordView)
    ensures
        csv_record(record_row(r)) == Some(r),
{
    crate::decimal::lemma_decimal_parses(r.tx_id);
    crate::decimal::lemma_decimal_parses(r.from_user_id);
    crate::decimal::lemma_decimal_parses(r.to_user_id);
    crate::decimal::lemma_decimal_parses(r.amount);
    crate::decimal::lemma_decimal_parses(r.timestamp);
    crate::decimal::lemma_decimal_shape(r.tx_id as nat);
    crate::decimal::lemma_decimal_shape(r.from_user_id as nat);
    crate::decimal::lemma_decimal_shape(r.to_user_id as nat);
    crate::decimal::lemma_decimal_shape(r.amount as nat);
    crate::decimal::lemma_decimal_shape(r.timestamp as nat);
    let row = record_row(r);
    assert(row[0][1] != 'x' || row[0].len() < 2);
    assert(row[2][1] != 'x' || row[2].len() < 2);
    assert(row[3][1] != 'x' || row[3].len() < 2);
    assert(row[4][1] != 'x' || row[4].len() < 2);
    assert(row[5][1] != 'x' || row[5].len() < 2);
}

/// The rows written for `rs`, read back with no error, parse to `rs`.
proof fn lemma_csv_rows_parse(rs: Seq<RecordView>)
    ensures
        csv_parse_rows(csv_rows_of(rs), false) == Ok::<Seq<RecordView>, ErrorKind>(rs),
{
    let rows = csv_rows_of(rs);
    assert(rows.drop_first() =~= rs.map_values(|r: RecordView| record_row(r)));
    lemma_csv_records_parse(rs);
}

proof fn lemma_csv_records_parse(rs: Seq<RecordView>)
    ensures
        csv_records(rs.map_values(|r: RecordView| record_row(r)), false) == Ok::<
            Seq<RecordView>,
            ErrorKind,
        >(rs),
    decreases rs.len(),
{
    let rows = rs.map_values(|r: RecordView| record_row(r));
    if rs.len() == 0 {
        assert(rs =~= Seq::<RecordView>::empty());
    } else {
        lemma_record_row_parses(rs[0]);
        assert(rows.drop_first() =~= rs.drop_first().map_values(|r: RecordView| record_row(r)));
        lemma_csv_records_parse(rs.drop_first());
        assert(seq![rs[0]] + rs.drop_first() =~= rs);
    }
}

/// Column `i` of a data row is field `i` of its record, whatever the other
/// columns hold: a row of at least eight columns holds a record exactly when
/// each of its number columns is a number and its type and status columns
/// are names, and then each field is read from its own column.
pub proof fn lemma_csv_columns(row: Seq<Seq<char>>)
    ensures
        csv_record(row) is Some <==> row.len() >= 8 && csv_u64(row[0]) is Some
            && TransactionType::from_name(row[1]) is Some && csv_u64(row[2]) is Some && csv_u64(
            row[3],
        ) is Some && csv_u64(row[4]) is Some && csv_u64(row[5]) is Some
            && TransactionStatus::from_name(row[6]) is Some,
        csv_record(row) matches Some(v) ==> {
            &&& Some(v.tx_id) == csv_u64(row[0])
            &&& Some(v.tx_type) == TransactionType::from_name(row[1])
            &&& Some(v.from_user_id) == csv_u64(row[2])
            &&& Some(v.to_user_id) == csv_u64(row[3])
            &&& Some(v.amount) == csv_u64(row[4])
            &&& Some(v.timestamp) == csv_u64(row[5])
            &&& Some(v.status) == TransactionStatus::from_name(row[6])
            &&& v.description == row[7]
        },
{
}

/// The row written for a record holds field `i` in column `i`: the numbers
/// in decimal, the type and status by name, the description as it is.
pub proof fn lemma_csv_row_columns(r: RecordView)
    ensures
        record_row(r).len() == 8,
        record_row(r)[0] == decimal(r.tx_id as nat),
        record_row(r)[1] == r.tx_type.name(),
        record_row(r)[2] == decimal(r.from_user_id as nat),
        record_row(r)[3] == decimal(r.to_user_id as nat),
        record_row(r)[4] == decimal(r.amount as nat),
        record_row(r)[5] == decimal(r.timestamp as nat),
        record_row(r)[6] == r.status.name(),
        record_row(r)[7] == r.description,
{
}

/// The rows written for `rs`: the header, then the row of record `i` at
/// position `i + 1`.
pub proof fn lemma_csv_rows_order(rs: Seq<RecordView>)
    ensures
        csv_rows_of(rs).len() == rs.len() + 1,
        csv_rows_of(rs)[0] == field_names(),
        forall|i: int| 0 <= i < rs.len() ==> #[trigger] csv_rows_of(rs)[i + 1] == record_row(rs[i]),
{
    assert forall|i: int| 0 <= i < rs.len() implies #[trigger] csv_rows_of(rs)[i + 1] == record_row(
        rs[i],
    ) by {
        assert(csv_rows_of(rs)[i + 1] == rs.map_values(|x: RecordView| record_row(x))[i]);
    }
}

} // verus!
