//! Choosing a format at run time: what the converter and the comparer do
//! with the bytes they read.
use crate::errors::{ErrorKind, ParseError};
use crate::formats::binary::{
    bin_parse, bin_serialize, lemma_binary_roundtrip, quote_wrapped, BinOutcome, YPBankBin,
};
use crate::formats::csv::{csv_rows_of, csv_written, YPBankCSV};
use crate::formats::txt::{text_parse, text_serialize, YPBankText};
use crate::formats::txt_roundtrip::{lemma_text_roundtrip, text_safe};
use crate::formats::{records_result, Parser, RecordView, Serializer, YPBankRecord};
use vstd::prelude::*;

verus! {

broadcast use vstd::string::group_string_axioms;

/// The three supported formats.
#[derive(Debug, Clone, Copy, PartialEq, Eq, Structural)]
pub enum YPBankFormat {
    Csv,
    Txt,
    Binary,
}

/// What reading `data` in `format` gives. For the binary format, the reader
/// is defined only where [`binary_input_defined`] holds.
pub open spec fn parse_spec(format: YPBankFormat, data: Seq<u8>) -> Result<
    Seq<RecordView>,
    ErrorKind,
> {
    match format {
        YPBankFormat::Csv => YPBankCSV::parse_spec(data),
        YPBankFormat::Txt => text_parse(data),
        YPBankFormat::Binary => match bin_parse(data) {
            BinOutcome::Parsed(rs) => Ok(rs),
            BinOutcome::Failed(k) => Err(k),
            BinOutcome::Panics => Err(ErrorKind::BinaryFormat),
        },
    }
}

/// The inputs on which reading in `format` returns.
pub open spec fn binary_input_defined(format: YPBankFormat, data: Seq<u8>) -> bool {
    format == YPBankFormat::Binary ==> !(bin_parse(data) is Panics)
}

/// What writing `rs` in `format` gives, where it is fixed by the library;
/// CSV bytes are the `csv` crate's.
pub open spec fn serialize_spec(
    format: YPBankFormat,
    rs: Seq<RecordView>,
    r: Result<Vec<u8>, ParseError>,
) -> bool {
    match format {
        YPBankFormat::Csv => r matches Ok(b) && b@ == csv_written(csv_rows_of(rs)),
        YPBankFormat::Txt => r matches Ok(b) && b@ == text_serialize(rs),
        YPBankFormat::Binary => match bin_serialize(rs) {
            Some(b) => r matches Ok(out) && out@ == b,
            None => r matches Err(e) && e.kind() == ErrorKind::TryFromInt,
        },
    }
}

/// Reads the bytes of an input document in the given format.
pub fn parse_input(data: &[u8], format: &YPBankFormat) -> (res: Result<
    Vec<YPBankRecord>,
    ParseError,
>)
    requires
        binary_input_defined(*format, data@),
    ensures
        records_result(res) == parse_spec(*format, data@),
{
    match format {
        YPBankFormat::Csv => YPBankCSV::parse(data),
        YPBankFormat::Txt => YPBankText::parse(data),
        YPBankFormat::Binary => YPBankBin::parse(data),
    }
}

/// Reads the bytes of one of the two documents to compare.
pub fn parse_file(data: &[u8], format: &YPBankFormat) -> (res: Result<
    Vec<YPBankRecord>,
    ParseError,
>)
    requires
        binary_input_defined(*format, data@),
    ensures
        records_result(res) == parse_spec(*format, data@),
{
    match format {
        YPBankFormat::Csv => YPBankCSV::parse(data),
        YPBankFormat::Txt => YPBankText::parse(data),
        YPBankFormat::Binary => YPBankBin::parse(data),
    }
}

/// Records that `format` carries unchanged: any for CSV; for the text format,
/// descriptions without a line break and without `"` at either end; for the
/// binary format, descriptions that do not both start and end with `"`.
pub open spec fn format_carries(format: YPBankFormat, rs: Seq<RecordView>) -> bool {
    match format {
        YPBankFormat::Csv => true,
        YPBankFormat::Txt => forall|i: int| 0 <= i < rs.len() ==> text_safe(#[trigger] rs[i].description),
        YPBankFormat::Binary => forall|i: int|
            0 <= i < rs.len() ==> !quote_wrapped(#[trigger] rs[i].description),
    }
}

/// Writes records in the given format. Reading the bytes back in the same
/// format gives the records back, where the format carries them.
pub fn serialize_output(format: &YPBankFormat, records: &[YPBankRecord]) -> (res: Result<
    Vec<u8>,
    ParseError,
>)
    ensures
        serialize_spec(*format, records.deep_view(), res),
        res matches Ok(b) ==> (format_carries(*format, records.deep_view()) ==> binary_input_defined(
            *format,
            b@,
        ) && parse_spec(*format, b@) == Ok::<Seq<RecordView>, ErrorKind>(records.deep_view())),
{
    match format {
        YPBankFormat::Csv => YPBankCSV::serialize(records),
        YPBankFormat::Txt => {
            let res = YPBankText::serialize(records);
            proof {
                if format_carries(*format, records.deep_view()) {
                    lemma_text_roundtrip(records.deep_view());
                }
            }
            res
        },
        YPBankFormat::Binary => {
            let res = YPBankBin::serialize(records);
            proof {
                if res is Ok && format_carries(*format, records.deep_view()) {
                    lemma_binary_roundtrip(records.deep_view());
                }
            }
            res
        },
    }
}

/// Whether two records hold the same values.
pub fn same_record(a: &YPBankRecord, b: &YPBankRecord) -> (r: bool)
    ensures
        r == (a@ == b@),
{
    let r = a.tx_id == b.tx_id && a.tx_type == b.tx_type && a.from_user_id == b.from_user_id
        && a.to_user_id == b.to_user_id && a.amount == b.amount && a.timestamp == b.timestamp
        && a.status == b.status && a.description == b.description;
    r
}

/// Whether two lists of records are the same, record by record.
pub fn records_identical(a: &[YPBankRecord], b: &[YPBankRecord]) -> (r: bool)
    ensures
        r == (a.deep_view() == b.deep_view()),
{
    if a.len() != b.len() {
        assert(a.deep_view().len() != b.deep_view().len());
        return false;
    }
    let mut i: usize = 0;
    while i < a.len()
        invariant
            a@.len() == b@.len(),
            0 <= i <= a@.len(),
            forall|k: int| 0 <= k < i ==> a@[k]@ == b@[k]@,
        decreases a@.len() - i,
    {
        if !same_record(&a[i], &b[i]) {
            assert(a.deep_view()[i as int] != b.deep_view()[i as int]);
            return false;
        }
        i = i + 1;
    }
    assert(a.deep_view() =~= b.deep_view());
    true
}

/// Each format name selects its own reader and writer: reading CSV, text
/// or binary data is what the CSV, text or binary reader makes of it, and
/// writing in a format gives the bytes that format's writer gives.
pub proof fn lemma_format_dispatch(
    data: Seq<u8>,
    rs: Seq<RecordView>,
    r: Result<Vec<u8>, ParseError>,
)
    ensures
        parse_spec(YPBankFormat::Csv, data) == YPBankCSV::parse_spec(data),
        parse_spec(YPBankFormat::Txt, data) == text_parse(data),
        bin_parse(data) matches BinOutcome::Parsed(x) ==> parse_spec(YPBankFormat::Binary, data)
            == Ok::<Seq<RecordView>, ErrorKind>(x),
        bin_parse(data) matches BinOutcome::Failed(k) ==> parse_spec(YPBankFormat::Binary, data)
            == Err::<Seq<RecordView>, ErrorKind>(k),
        serialize_spec(YPBankFormat::Csv, rs, r) <==> (r matches Ok(b) && b@ == csv_written(
            csv_rows_of(rs),
        )),
        serialize_spec(YPBankFormat::Txt, rs, r) <==> (r matches Ok(b) && b@ == text_serialize(rs)),
        serialize_spec(YPBankFormat::Binary, rs, r) <==> match bin_serialize(rs) {
            Some(b) => r matches Ok(out) && out@ == b,
            None => r matches Err(e) && e.kind() == ErrorKind::TryFromInt,
        },
{
}

} // verus!
