//! The binary format.
//!
//! Each record is written as:
//! - the magic bytes `YPBN` (4 bytes);
//! - the record size, a big-endian `u32`: 46 plus the description's length;
//! - `TX_ID` (big-endian `u64`), `TX_TYPE` (1 byte), `FROM_USER_ID`,
//!   `TO_USER_ID`, `AMOUNT`, `TIMESTAMP` (big-endian `u64` each),
//!   `STATUS` (1 byte);
//! - the description's length (big-endian `u32`) and its UTF-8 bytes.
//!
//! Reading stops where the data ends; data that ends in the middle of a
//! record is an `Io` error, as a read past the end of the data is.
use crate::chars::{chars_of, copy_range, string_bytes, string_from_chars, string_from_utf8};
use crate::decimal::{decimal, decimal_chars};
use crate::endian::{
    lemma_u32_be_roundtrip, lemma_u64_be_roundtrip,
    push_u32_be, push_u64_be, read_u32_be, read_u64_be, u32_be_bytes, u32_from_be, u64_be_bytes,
    u64_from_be,
};
use crate::errors::{ErrorKind, ParseError};
use crate::formats::{
    Parser, RecordView, Serializer, TransactionStatus, TransactionType, YPBankRecord,
};
use vstd::prelude::*;
use vstd::utf8::*;

verus! {

broadcast use vstd::string::group_string_axioms;

/// Binary format parser and serializer for YPBank records.
pub struct YPBankBin;

/// The magic bytes `YPBN` that open every record.
pub open spec fn magic() -> Seq<u8> {
    seq![0x59u8, 0x50u8, 0x42u8, 0x4eu8]
}

/// The size of a record's body without the description.
pub open spec fn fixed_size() -> nat {
    46
}

/// What reading one record at the start of some bytes gives.
pub enum BinStep {
    /// No bytes are left.
    End,
    /// The record is cut off (`Io`) or malformed (`BinaryFormat`: bad magic,
    /// type, status or UTF-8).
    Fail(ErrorKind),
    /// A record, and the number of bytes it takes.
    Record(RecordView, nat),
    /// The description is a lone `"`, on which the reader does not return.
    Panics,
}

/// What reading a whole document gives.
pub enum BinOutcome {
    Parsed(Seq<RecordView>),
    Failed(ErrorKind),
    Panics,
}

/// The description that the reader keeps: a description that starts and
/// ends with `"` loses those two characters.
pub open spec fn strip_quotes(c: Seq<char>) -> Seq<char> {
    if c.len() >= 2 && c[0] == '"' && c.last() == '"' {
        c.subrange(1, c.len() - 1)
    } else {
        c
    }
}

/// Reading one record at the start of `s`, check by check in the order of
/// the fields.
#[verifier::opaque]
pub open spec fn bin_read_record(s: Seq<u8>) -> BinStep {
    if s.len() == 0 {
        BinStep::End
    } else if s.len() < 4 {
        BinStep::Fail(ErrorKind::Io)
    } else if s.take(4) != magic() {
        BinStep::Fail(ErrorKind::BinaryFormat)
    } else if s.len() < 17 {
        BinStep::Fail(ErrorKind::Io)
    } else if TransactionType::from_code(s[16]) is None {
        BinStep::Fail(ErrorKind::BinaryFormat)
    } else if s.len() < 50 {
        BinStep::Fail(ErrorKind::Io)
    } else if TransactionStatus::from_code(s[49]) is None {
        BinStep::Fail(ErrorKind::BinaryFormat)
    } else if s.len() < 54 {
        BinStep::Fail(ErrorKind::Io)
    } else {
        let d = u32_from_be(s.subrange(50, 54)) as int;
        if s.len() < 54 + d {
            BinStep::Fail(ErrorKind::Io)
        } else {
            let db = s.subrange(54, 54 + d);
            if !valid_utf8(db) {
                BinStep::Fail(ErrorKind::BinaryFormat)
            } else {
                let c = decode_utf8(db);
                if c == seq!['"'] {
                    BinStep::Panics
                } else {
                    BinStep::Record(
                        RecordView {
                            tx_id: u64_from_be(s.subrange(8, 16)),
                            tx_type: TransactionType::from_code(s[16])->0,
                            from_user_id: u64_from_be(s.subrange(17, 25)),
                            to_user_id: u64_from_be(s.subrange(25, 33)),
                            amount: u64_from_be(s.subrange(33, 41)),
                            timestamp: u64_from_be(s.subrange(41, 49)),
                            status: TransactionStatus::from_code(s[49])->0,
                            description: strip_quotes(c),
                        },
                        (54 + d) as nat,
                    )
                }
            }
        }
    }
}

/// Reading records from `s` until the data ends.
pub open spec fn bin_parse(s: Seq<u8>) -> BinOutcome
    decreases s.len(),
{
    match bin_read_record(s) {
        BinStep::End => BinOutcome::Parsed(seq![]),
        BinStep::Fail(k) => BinOutcome::Failed(k),
        BinStep::Panics => BinOutcome::Panics,
        BinStep::Record(r, n) => if 0 < n <= s.len() {
            match bin_parse(s.skip(n as int)) {
                BinOutcome::Parsed(rs) => BinOutcome::Parsed(seq![r] + rs),
                other => other,
            }
        } else {
            BinOutcome::Parsed(seq![])
        },
    }
}

/// `rs` followed by what `o` parsed.
pub open spec fn prepend(rs: Seq<RecordView>, o: BinOutcome) -> BinOutcome {
    match o {
        BinOutcome::Parsed(more) => BinOutcome::Parsed(rs + more),
        other => other,
    }
}

/// The outcome that a parse result stands for.
pub open spec fn result_outcome(r: Result<Vec<YPBankRecord>, ParseError>) -> BinOutcome {
    match r {
        Ok(v) => BinOutcome::Parsed(v.deep_view()),
        Err(e) => BinOutcome::Failed(e.kind()),
    }
}

/// The bytes of one record, if its size fits in the `u32` size field.
#[verifier::opaque]
pub open spec fn bin_encode_record(r: RecordView) -> Option<Seq<u8>> {
    let db = encode_utf8(r.description);
    if fixed_size() + db.len() > u32::MAX {
        None
    } else {
        Some(
            magic() + u32_be_bytes((fixed_size() + db.len()) as u32) + u64_be_bytes(r.tx_id) + seq![
            r.tx_type.code()] + u64_be_bytes(r.from_user_id) + u64_be_bytes(r.to_user_id)
                + u64_be_bytes(r.amount) + u64_be_bytes(r.timestamp) + seq![r.status.code()]
                + u32_be_bytes(db.len() as u32) + db,
        )
    }
}

/// The bytes of all records, one after the other, if every size fits.
pub open spec fn bin_serialize(rs: Seq<RecordView>) -> Option<Seq<u8>>
    decreases rs.len(),
{
    if rs.len() == 0 {
        Some(seq![])
    } else {
        match (bin_encode_record(rs[0]), bin_serialize(rs.drop_first())) {
            (Some(b), Some(rest)) => Some(b + rest),
            _ => None,
        }
    }
}

/// What reading one record gives, computed.
pub enum RecordRead {
    End,
    Fail(ParseError),
    Record(YPBankRecord, usize),
    Panics,
}

/// Whether a computed record read stands for the spec step `st`.
pub open spec fn read_matches(r: RecordRead, st: BinStep) -> bool {
    match (r, st) {
        (RecordRead::End, BinStep::End) => true,
        (RecordRead::Fail(e), BinStep::Fail(k)) => e.kind() == k,
        (RecordRead::Record(rec, n), BinStep::Record(v, m)) => rec@ == v && n == m,
        (RecordRead::Panics, BinStep::Panics) => true,
        _ => false,
    }
}

/// The bytes `bs` as `{:?}` prints them, without the brackets: decimal
/// numbers separated by `, `.
pub open spec fn byte_items(bs: Seq<u8>) -> Seq<char>
    decreases bs.len(),
{
    if bs.len() == 0 {
        seq![]
    } else if bs.len() == 1 {
        decimal(bs[0] as nat)
    } else {
        byte_items(bs.drop_last()) + seq![',', ' '] + decimal(bs.last() as nat)
    }
}

/// `prefix` followed by the bytes `bs` as `{:?}` prints them: `[89, 80, ...]`.
fn bytes_message(prefix: &str, bs: &[u8]) -> (s: String)
    ensures
        s@ == prefix@ + seq!['['] + byte_items(bs@) + seq![']'],
{
    let mut out = chars_of(prefix);
    out.push('[');
    let ghost start = out@;
    let mut i: usize = 0;
    assert(bs@.take(0) =~= Seq::<u8>::empty());
    while i < bs.len()
        invariant
            0 <= i <= bs@.len(),
            out@ == start + byte_items(bs@.take(i as int)),
        decreases bs@.len() - i,
    {
        let ghost before = out@;
        if i > 0 {
            out.push(',');
            out.push(' ');
        }
        let digits = decimal_chars(bs[i] as u64);
        let mut j: usize = 0;
        let ghost mid = out@;
        while j < digits.len()
            invariant
                0 <= j <= digits@.len(),
                out@ == mid + digits@.take(j as int),
            decreases digits@.len() - j,
        {
            out.push(digits[j]);
            j = j + 1;
            assert(out@ =~= mid + digits@.take(j as int));
        }
        assert(digits@.take(digits@.len() as int) =~= digits@);
        proof {
            let t = bs@.take(i + 1);
            assert(t.drop_last() =~= bs@.take(i as int));
            assert(t.last() == bs@[i as int]);
            assert(out@ =~= start + byte_items(t));
        }
        i = i + 1;
    }
    assert(bs@.take(bs@.len() as int) =~= bs@);
    out.push(']');
    string_from_chars(&out)
}

/// The message of a read past the end of the data.
pub open spec fn eof_text() -> Seq<char> {
    "failed to fill whole buffer"@
}

/// The message of the error that reading a record at the start of `s` gives:
/// for a cut-off record, [`eof_text`]; for a malformed one, the check that
/// failed first (the header bytes, as `{:?}` prints them; the type or status
/// byte; or the start of the UTF-8 error's message).
pub open spec fn read_error_text(s: Seq<u8>, e: ParseError) -> bool {
    match e {
        ParseError::Io(m) => m@ == eof_text(),
        ParseError::BinaryFormat(m) => if s.take(4) != magic() {
            m@ == "Expected YPBN header, got: "@ + seq!['['] + byte_items(s.take(4)) + seq![']']
        } else if TransactionType::from_code(s[16]) is None {
            m@ == "Invalid TX_TYPE: "@ + decimal(s[16] as nat)
        } else if TransactionStatus::from_code(s[49]) is None {
            m@ == "Invalid STATUS: "@ + decimal(s[49] as nat)
        } else {
            "Invalid UTF-8 in description: "@.is_prefix_of(m@)
        },
        _ => false,
    }
}

/// The error of a read past the end of the data.
fn eof_error() -> (e: ParseError)
    ensures
        e matches ParseError::Io(m) && m@ == eof_text(),
{
    ParseError::Io("failed to fill whole buffer".to_string())
}

/// Reads the record that starts at `data[pos..]`.
pub fn read_record(data: &[u8], pos: usize) -> (r: RecordRead)
    requires
        pos <= data@.len(),
    ensures
        read_matches(r, bin_read_record(data@.skip(pos as int))),
        r matches RecordRead::Record(_, n) ==> 0 < n <= data@.len() - pos,
        r matches RecordRead::Fail(e) ==> read_error_text(data@.skip(pos as int), e),
{
    reveal(bin_read_record);
    let ghost s = data@.skip(pos as int);
    let avail = data.len() - pos;
    if avail == 0 {
        return RecordRead::End;
    }
    if avail < 4 {
        return RecordRead::Fail(eof_error());
    }
    if !(data[pos] == 0x59 && data[pos + 1] == 0x50 && data[pos + 2] == 0x42 && data[pos + 3]
        == 0x4e) {
        proof {
            if s.take(4) == magic() {
                assert(s.take(4)[0] == s[0]);
                assert(s.take(4)[1] == s[1]);
                assert(s.take(4)[2] == s[2]);
                assert(s.take(4)[3] == s[3]);
            }
        }
        let header = vstd::slice::slice_subrange(data, pos, pos + 4);
        assert(header@ =~= s.take(4));
        return RecordRead::Fail(
            ParseError::BinaryFormat(bytes_message("Expected YPBN header, got: ", header)),
        );
    }
    assert(s.take(4) =~= magic());
    if avail < 17 {
        return RecordRead::Fail(eof_error());
    }
    let tx_id = read_u64_be(data, pos + 8);
    assert(data@.subrange(pos + 8, pos + 16) =~= s.subrange(8, 16));
    let tx_type = match TransactionType::try_from(data[pos + 16]) {
        Ok(t) => t,
        Err(e) => {
            return RecordRead::Fail(e);
        },
    };
    if avail < 50 {
        return RecordRead::Fail(eof_error());
    }
    let from_user_id = read_u64_be(data, pos + 17);
    let to_user_id = read_u64_be(data, pos + 25);
    let amount = read_u64_be(data, pos + 33);
    let timestamp = read_u64_be(data, pos + 41);
    assert(data@.subrange(pos + 17, pos + 25) =~= s.subrange(17, 25));
    assert(data@.subrange(pos + 25, pos + 33) =~= s.subrange(25, 33));
    assert(data@.subrange(pos + 33, pos + 41) =~= s.subrange(33, 41));
    assert(data@.subrange(pos + 41, pos + 49) =~= s.subrange(41, 49));
    let status = match TransactionStatus::try_from(data[pos + 49]) {
        Ok(t) => t,
        Err(e) => {
            return RecordRead::Fail(e);
        },
    };
    if avail < 54 {
        return RecordRead::Fail(eof_error());
    }
    let d = read_u32_be(data, pos + 50);
    assert(data@.subrange(pos + 50, pos + 54) =~= s.subrange(50, 54));
    if avail - 54 < d as usize {
        return RecordRead::Fail(eof_error());
    }
    let start = pos + 54;
    let end = start + d as usize;
    let desc_bytes = vstd::slice::slice_subrange(data, start, end);
    assert(desc_bytes@ =~= s.subrange(54, 54 + d));
    let description = match string_from_utf8(desc_bytes) {
        Ok(text) => text,
        Err(reason) => {
            let mut message = "Invalid UTF-8 in description: ".to_string();
            message.append(reason.as_str());
            assert("Invalid UTF-8 in description: "@.is_prefix_of(message@));
            return RecordRead::Fail(ParseError::BinaryFormat(message));
        },
    };
    let c = chars_of(description.as_str());
    let n = c.len();
    let description = if n >= 1 && c[0] == '"' && c[n - 1] == '"' {
        if n == 1 {
            assert(c@ =~= seq!['"']);
            return RecordRead::Panics;
        }
        string_from_chars(&copy_range(&c, 1, n - 1))
    } else {
        description
    };
    assert(c@ != seq!['"']) by {
        if c@ == seq!['"'] {
            assert(c@[0] == '"');
        }
    }
    let rec = YPBankRecord {
        tx_id,
        tx_type,
        from_user_id,
        to_user_id,
        amount,
        timestamp,
        status,
        description,
    };
    RecordRead::Record(rec, 54 + d as usize)
}

/// What reading a whole document gives, computed.
pub enum DocumentRead {
    Parsed(Vec<YPBankRecord>),
    Failed(ParseError),
    Panics,
}

/// Whether a computed document read stands for the spec outcome `o`.
pub open spec fn document_matches(r: DocumentRead, o: BinOutcome) -> bool {
    match (r, o) {
        (DocumentRead::Parsed(v), BinOutcome::Parsed(rs)) => v.deep_view() == rs,
        (DocumentRead::Failed(e), BinOutcome::Failed(k)) => e.kind() == k,
        (DocumentRead::Panics, BinOutcome::Panics) => true,
        _ => false,
    }
}

/// Reads records from `data` until it ends, a record is malformed, or a
/// description is a lone `"`.
pub fn read_document(data: &[u8]) -> (r: DocumentRead)
    ensures
        document_matches(r, bin_parse(data@)),
        r matches DocumentRead::Failed(e) ==> exists|p: int|
            0 <= p <= data@.len() && read_error_text(#[trigger] data@.skip(p), e),
{
    let mut records: Vec<YPBankRecord> = Vec::new();
    let mut pos: usize = 0;
    assert(data@.skip(0) =~= data@);
    loop
        invariant
            pos <= data@.len(),
            bin_parse(data@) == prepend(records.deep_view(), bin_parse(data@.skip(pos as int))),
        decreases data@.len() - pos,
    {
        let ghost s = data@.skip(pos as int);
        match read_record(data, pos) {
            RecordRead::End => {
                assert(records.deep_view() + seq![] =~= records.deep_view());
                return DocumentRead::Parsed(records);
            },
            RecordRead::Fail(e) => {
                assert(read_error_text(data@.skip(pos as int), e));
                return DocumentRead::Failed(e);
            },
            RecordRead::Panics => {
                return DocumentRead::Panics;
            },
            RecordRead::Record(rec, n) => {
                let ghost v = rec@;
                proof {
                    assert(0 < n <= s.len());
                    assert(s.skip(n as int) =~= data@.skip(pos + n));
                }
                let ghost before = records.deep_view();
                records.push(rec);
                assert(records.deep_view() =~= before + seq![v]);
                proof {
                    match bin_parse(s.skip(n as int)) {
                        BinOutcome::Parsed(more) => {
                            assert(before + (seq![v] + more) =~= before + seq![v] + more);
                        },
                        _ => {},
                    }
                }
                assert(pos + n <= data.len());
                pos = pos + n;
            },
        }
    }
}

/// Whether reading `data` would hit a description that is a lone `"`, on
/// which [`YPBankBin::parse`] is not defined.
pub fn binary_input_panics(data: &[u8]) -> (b: bool)
    ensures
        b == (bin_parse(data@) is Panics),
{
    match read_document(data) {
        DocumentRead::Panics => true,
        _ => false,
    }
}

/// Appends the bytes of one record to `out`, or fails with `TryFromInt`
/// where its size does not fit in the `u32` size field; the magic bytes are
/// written before the size is checked, so they stay in `out` then.
pub fn write_record(rec: &YPBankRecord, out: &mut Vec<u8>) -> (r: Result<(), ParseError>)
    ensures
        match bin_encode_record(rec@) {
            Some(b) => r is Ok && final(out)@ == old(out)@ + b,
            None => r matches Err(e) && e.kind() == ErrorKind::TryFromInt && final(out)@ == old(
                out,
            )@ + magic(),
        },
{
    reveal(bin_encode_record);
    let ghost start = out@;
    out.push(0x59);
    out.push(0x50);
    out.push(0x42);
    out.push(0x4e);
    let desc_bytes = string_bytes(&rec.description);
    let len = desc_bytes.len();
    if len > 0xffff_ffff - 46 {
        assert(out@ =~= start + magic());
        return Err(ParseError::TryFromInt("out of range integral type conversion attempted".to_string()));
    }
    push_u32_be(out, (46 + len) as u32);
    push_u64_be(out, rec.tx_id);
    out.push(rec.tx_type.as_u8());
    push_u64_be(out, rec.from_user_id);
    push_u64_be(out, rec.to_user_id);
    push_u64_be(out, rec.amount);
    push_u64_be(out, rec.timestamp);
    out.push(rec.status.as_u8());
    push_u32_be(out, len as u32);
    let mut i: usize = 0;
    let ghost mid = out@;
    while i < len
        invariant
            0 <= i <= len == desc_bytes@.len(),
            out@ == mid + desc_bytes@.take(i as int),
        decreases len - i,
    {
        out.push(desc_bytes[i]);
        i = i + 1;
        assert(out@ =~= mid + desc_bytes@.take(i as int));
    }
    assert(desc_bytes@.take(len as int) =~= desc_bytes@);
    assert(out@ =~= start + bin_encode_record(rec@)->0);
    Ok(())
}

/// A description that the reader would change: it starts and ends with `"`.
pub open spec fn quote_wrapped(c: Seq<char>) -> bool {
    c.len() >= 1 && c[0] == '"' && c.last() == '"'
}

/// Where each field of an encoded record stands.
#[verifier::rlimit(60)]
proof fn lemma_encoded_layout(r: RecordView, tail: Seq<u8>)
    requires
        bin_encode_record(r) is Some,
    ensures
        ({
            let db = encode_utf8(r.description);
            let d = db.len() as int;
            let s = bin_encode_record(r)->0 + tail;
            &&& bin_encode_record(r)->0.len() == 54 + d
            &&& fixed_size() + d <= u32::MAX
            &&& s.take(4) == magic()
            &&& s.subrange(4, 8) == u32_be_bytes((fixed_size() + d) as u32)
            &&& s[16] == r.tx_type.code()
            &&& s[49] == r.status.code()
            &&& s.subrange(8, 16) == u64_be_bytes(r.tx_id)
            &&& s.subrange(17, 25) == u64_be_bytes(r.from_user_id)
            &&& s.subrange(25, 33) == u64_be_bytes(r.to_user_id)
            &&& s.subrange(33, 41) == u64_be_bytes(r.amount)
            &&& s.subrange(41, 49) == u64_be_bytes(r.timestamp)
            &&& s.subrange(50, 54) == u32_be_bytes(d as u32)
            &&& s.subrange(54, 54 + d) == db
        }),
{
    reveal(bin_encode_record);
    let db = encode_utf8(r.description);
    let d = db.len() as int;
    let e = bin_encode_record(r)->0;
    let s = e + tail;
    lemma_u32_be_roundtrip((fixed_size() + d) as u32);
    lemma_u32_be_roundtrip(d as u32);
    lemma_u64_be_roundtrip(r.tx_id);
    lemma_u64_be_roundtrip(r.from_user_id);
    lemma_u64_be_roundtrip(r.to_user_id);
    lemma_u64_be_roundtrip(r.amount);
    lemma_u64_be_roundtrip(r.timestamp);
    let p1 = magic() + u32_be_bytes((fixed_size() + d) as u32);
    let p2 = p1 + u64_be_bytes(r.tx_id) + seq![r.tx_type.code()];
    let p3 = p2 + u64_be_bytes(r.from_user_id) + u64_be_bytes(r.to_user_id);
    let p4 = p3 + u64_be_bytes(r.amount) + u64_be_bytes(r.timestamp) + seq![r.status.code()];
    let p5 = p4 + u32_be_bytes(d as u32);
    assert(e == p5 + db);
    assert(p1.len() == 8 && p2.len() == 17 && p3.len() == 33 && p4.len() == 50 && p5.len() == 54);
    assert(s.take(4) =~= magic());
    assert(s.subrange(4, 8) =~= u32_be_bytes((fixed_size() + d) as u32));
    assert(s.subrange(8, 16) =~= u64_be_bytes(r.tx_id));
    assert(s.subrange(17, 25) =~= u64_be_bytes(r.from_user_id));
    assert(s.subrange(25, 33) =~= u64_be_bytes(r.to_user_id));
    assert(s.subrange(33, 41) =~= u64_be_bytes(r.amount));
    assert(s.subrange(41, 49) =~= u64_be_bytes(r.timestamp));
    assert(s.subrange(50, 54) =~= u32_be_bytes(d as u32));
    assert(s.subrange(54, 54 + d) =~= db);
}

/// Reading a written record, whatever bytes follow it, gives the record back
/// and takes exactly its own bytes, provided its description does not both
/// start and end with `"` (the reader removes such quotes).
pub proof fn lemma_read_encoded(r: RecordView, tail: Seq<u8>)
    requires
        bin_encode_record(r) is Some,
        !quote_wrapped(r.description),
    ensures
        bin_read_record(bin_encode_record(r)->0 + tail) == BinStep::Record(
            r,
            bin_encode_record(r)->0.len(),
        ),
        bin_encode_record(r)->0.len() > 0,
{
    reveal(bin_read_record);
    let db = encode_utf8(r.description);
    let d = db.len() as int;
    let s = bin_encode_record(r)->0 + tail;
    lemma_encoded_layout(r, tail);
    lemma_u32_be_roundtrip(d as u32);
    lemma_u64_be_roundtrip(r.tx_id);
    lemma_u64_be_roundtrip(r.from_user_id);
    lemma_u64_be_roundtrip(r.to_user_id);
    lemma_u64_be_roundtrip(r.amount);
    lemma_u64_be_roundtrip(r.timestamp);
    vstd::utf8::encode_utf8_valid_utf8(r.description);
    vstd::utf8::encode_utf8_decode_utf8(r.description);
    let c = decode_utf8(db);
    assert(c != seq!['"']) by {
        if c == seq!['"'] {
            assert(c[0] == '"' && c.last() == '"');
        }
    }
    assert(strip_quotes(c) == c);
}

/// The bytes written for one record open with `YPBN` and a size field that
/// counts the bytes after the first eight: 46 plus the description's length.
pub proof fn lemma_binary_record_structure(r: RecordView)
    requires
        bin_encode_record(r) is Some,
    ensures
        ({
            let e = bin_encode_record(r)->0;
            let d = encode_utf8(r.description).len();
            &&& e.take(4) == magic()
            &&& u32_from_be(e.subrange(4, 8)) == fixed_size() + d
            &&& e.len() == 8 + u32_from_be(e.subrange(4, 8))
            &&& e.subrange(54, e.len() as int) == encode_utf8(r.description)
        }),
{
    let e = bin_encode_record(r)->0;
    let d = encode_utf8(r.description).len();
    lemma_encoded_layout(r, seq![]);
    assert(e + seq![] =~= e);
    let s = e + Seq::<u8>::empty();
    assert(s.take(4) == e.take(4));
    assert(s.subrange(4, 8) == e.subrange(4, 8));
    assert(s.subrange(54, 54 + d as int) == e.subrange(54, e.len() as int));
    lemma_u32_be_roundtrip((fixed_size() + d) as u32);
}

/// The type and status bytes of a written record: byte 16 is 0, 1 or 2 for
/// `DEPOSIT`, `TRANSFER` or `WITHDRAWAL`, and byte 49 is 0, 1 or 2 for
/// `SUCCESS`, `FAILURE` or `PENDING`.
pub proof fn lemma_binary_type_status_bytes(r: RecordView)
    requires
        bin_encode_record(r) is Some,
    ensures
        bin_encode_record(r)->0[16] == match r.tx_type {
            TransactionType::Deposit => 0u8,
            TransactionType::Transfer => 1u8,
            TransactionType::Withdrawal => 2u8,
        },
        bin_encode_record(r)->0[49] == match r.status {
            TransactionStatus::Success => 0u8,
            TransactionStatus::Failure => 1u8,
            TransactionStatus::Pending => 2u8,
        },
{
    lemma_encoded_layout(r, seq![]);
    let e = bin_encode_record(r)->0;
    assert(e + seq![] =~= e);
}

/// Reading back what [`YPBankBin::serialize`] wrote gives the records back,
/// provided no description starts and ends with `"` (the reader removes such
/// quotes, and does not return on a lone `"`).
pub proof fn lemma_binary_roundtrip(rs: Seq<RecordView>)
    requires
        bin_serialize(rs) is Some,
        forall|i: int| 0 <= i < rs.len() ==> !quote_wrapped(#[trigger] rs[i].description),
    ensures
        bin_parse(bin_serialize(rs)->0) == BinOutcome::Parsed(rs),
    decreases rs.len(),
{
    if rs.len() == 0 {
        reveal(bin_read_record);
        assert(bin_read_record(seq![]) == BinStep::End);
        assert(rs =~= Seq::<RecordView>::empty());
    } else {
        assert(bin_encode_record(rs[0]) is Some && bin_serialize(rs.drop_first()) is Some);
        let e = bin_encode_record(rs[0])->0;
        let rest = bin_serialize(rs.drop_first())->0;
        let s = e + rest;
        assert(bin_serialize(rs) == Some(s));
        lemma_read_encoded(rs[0], rest);
        assert(s.skip(e.len() as int) =~= rest);
        assert forall|i: int| 0 <= i < rs.drop_first().len() implies !quote_wrapped(
            #[trigger] rs.drop_first()[i].description,
        ) by {
            assert(rs.drop_first()[i] == rs[i + 1]);
        }
        lemma_binary_roundtrip(rs.drop_first());
        assert(seq![rs[0]] + rs.drop_first() =~= rs);
        assert(bin_parse(s.skip(e.len() as int)) == BinOutcome::Parsed(rs.drop_first()));
        assert(bin_parse(s) == BinOutcome::Parsed(seq![rs[0]] + rs.drop_first()));
    }
}

impl Parser for YPBankBin {
    type Item = YPBankRecord;

    open spec fn accepts(data: Seq<u8>) -> bool {
        !(bin_parse(data) is Panics)
    }

    /// Reads records until the data ends. A record cut off by the end of the
    /// data is an `Io` error; a record with a wrong magic, type or status
    /// byte, or with a description that is not UTF-8, is a `BinaryFormat`
    /// error.
    fn parse(data: &[u8]) -> (res: Result<Vec<YPBankRecord>, ParseError>)
        ensures
            result_outcome(res) == bin_parse(data@),
            res matches Err(e) ==> exists|p: int|
                0 <= p <= data@.len() && read_error_text(#[trigger] data@.skip(p), e),
    {
        match read_document(data) {
            DocumentRead::Parsed(v) => Ok(v),
            DocumentRead::Failed(e) => Err(e),
            DocumentRead::Panics => {
                assert(false);
                Ok(Vec::new())
            },
        }
    }
}

impl Serializer for YPBankBin {
    type Item = YPBankRecord;

    /// Writes the records one after the other; fails with `TryFromInt` where
    /// a record's size does not fit in the `u32` size field.
    fn serialize(data: &[YPBankRecord]) -> (res: Result<Vec<u8>, ParseError>)
        ensures
            match bin_serialize(data.deep_view()) {
                Some(b) => res matches Ok(out) && out@ == b,
                None => res matches Err(e) && e.kind() == ErrorKind::TryFromInt,
            },
    {
        let mut out: Vec<u8> = Vec::new();
        let mut i: usize = 0;
        assert(data.deep_view().skip(0) =~= data.deep_view());
        proof {
            match bin_serialize(data.deep_view()) {
                Some(b) => {
                    assert(out@ + b =~= b);
                },
                None => {},
            }
        }
        while i < data.len()
            invariant
                0 <= i <= data@.len(),
                bin_serialize(data.deep_view()) == match bin_serialize(
                    data.deep_view().skip(i as int),
                ) {
                    Some(rest) => Some(out@ + rest),
                    None => None::<Seq<u8>>,
                },
            decreases data@.len() - i,
        {
            let ghost rest = data.deep_view().skip(i as int);
            assert(rest.drop_first() =~= data.deep_view().skip(i + 1));
            assert(rest[0] == data[i as int]@);
            let ghost before = out@;
            match write_record(&data[i], &mut out) {
                Ok(()) => {},
                Err(e) => {
                    return Err(e);
                },
            }
            proof {
                match bin_serialize(data.deep_view().skip(i + 1)) {
                    Some(more) => {
                        assert(before + (bin_encode_record(rest[0])->0 + more) =~= out@ + more);
                    },
                    None => {},
                }
            }
            i = i + 1;
        }
        assert(data.deep_view().skip(i as int) =~= Seq::<RecordView>::empty());
        assert(out@ + seq![] =~= out@);
        Ok(out)
    }
}

} // verus!
