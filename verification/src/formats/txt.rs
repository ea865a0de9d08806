//! The text format: records are blocks of `KEY: value` lines, separated by
//! empty lines; lines that start with `#` are comments.
//!
//! Lines are read up to each `\n` and must be UTF-8. Each line is trimmed of
//! whitespace. An empty line closes the current record, a comment line is
//! skipped, and any other line opens a record if none is open and, where it
//! holds a `:`, sets the field named before the first `:` to what follows it
//! (both trimmed, the value also stripped of surrounding `"`). A later line
//! for the same field wins. A record's fields must include the eight field
//! names (other names are ignored): the five numbers in decimal, the type
//! and status by name.
use crate::chars::{
    chars_of, copy_range, first_at, split_first, string_bytes, string_from_chars,
    string_from_utf8, trim, trim_quotes, trim_quotes_range, trim_range,
};
use crate::decimal::{decimal, decimal_chars, parse_u64, parse_u64_radix_range};
use crate::errors::{ErrorKind, ParseError};
use crate::formats::{
    field_name, field_names, records_result, Parser, RecordView, Serializer, TransactionStatus,
    TransactionType, YPBankRecord,
};
use vstd::prelude::*;
use vstd::utf8::*;

verus! {

broadcast use vstd::string::group_string_axioms;

/// Text format parser and serializer for YPBank records.
pub struct YPBankText;

/// A record's fields as read so far: name and value, in the order read.
pub type Fields = Seq<(Seq<char>, Seq<char>)>;

/// `k` is the position of the first `\n` in `s`.
pub open spec fn first_newline(s: Seq<u8>, k: int) -> bool {
    &&& 0 <= k < s.len()
    &&& s[k] == 10
    &&& forall|j: int| 0 <= j < k ==> s[j] != 10
}

/// The lines of `s`: the bytes before each `\n`, and the bytes after the
/// last `\n` if there are any.
pub open spec fn lines(s: Seq<u8>) -> Seq<Seq<u8>>
    decreases s.len(),
{
    if s.len() == 0 {
        seq![]
    } else if exists|k: int| first_newline(s, k) {
        let k = choose|k: int| first_newline(s, k);
        seq![s.take(k)] + lines(s.skip(k + 1))
    } else {
        seq![s]
    }
}

/// The value of the field named `key`: the last one read.
pub open spec fn lookup(fields: Fields, key: Seq<char>) -> Option<Seq<char>>
    decreases fields.len(),
{
    if fields.len() == 0 {
        None
    } else if fields.last().0 == key {
        Some(fields.last().1)
    } else {
        lookup(fields.drop_last(), key)
    }
}

/// A value that starts and ends with `"`.
pub open spec fn quoted(v: Seq<char>) -> bool {
    v.len() >= 1 && v[0] == '"' && v.last() == '"'
}

/// The number in the field named `field_names()[i]`: the value must not be
/// quoted and must be a decimal `u64`.
pub open spec fn number_field(fields: Fields, i: int) -> Option<u64> {
    match lookup(fields, field_names()[i]) {
        Some(v) => if quoted(v) {
            None
        } else {
            parse_u64(v)
        },
        None => None,
    }
}

/// The string in the field named `field_names()[i]`, without surrounding
/// quotes.
pub open spec fn text_field(fields: Fields, i: int) -> Option<Seq<char>> {
    match lookup(fields, field_names()[i]) {
        Some(v) => Some(
            if quoted(v) {
                trim_quotes(v)
            } else {
                v
            },
        ),
        None => None,
    }
}

/// The record that a block's fields describe; a missing field or a value of
/// the wrong kind is a `Json` error.
pub open spec fn record_from_fields(fields: Fields) -> Result<RecordView, ErrorKind> {
    match (
        number_field(fields, 0),
        text_field(fields, 1),
        number_field(fields, 2),
        number_field(fields, 3),
        number_field(fields, 4),
        number_field(fields, 5),
        text_field(fields, 6),
        text_field(fields, 7),
    ) {
        (
            Some(tx_id),
            Some(tx_type),
            Some(from_user_id),
            Some(to_user_id),
            Some(amount),
            Some(timestamp),
            Some(status),
            Some(description),
        ) => match (TransactionType::from_name(tx_type), TransactionStatus::from_name(status)) {
            (Some(tx_type), Some(status)) => Ok(
                RecordView {
                    tx_id,
                    tx_type,
                    from_user_id,
                    to_user_id,
                    amount,
                    timestamp,
                    status,
                    description,
                },
            ),
            _ => Err(ErrorKind::Json),
        },
        _ => Err(ErrorKind::Json),
    }
}

/// The reader's state: the records read so far, and the fields of the open
/// record, if one is open.
pub struct TextState {
    pub records: Seq<RecordView>,
    pub current: Option<Fields>,
}

/// The state before any line.
pub open spec fn initial_state() -> TextState {
    TextState { records: seq![], current: None }
}

/// A field line's name and value, as the reader keeps them.
pub open spec fn field_of_line(t: Seq<char>) -> Option<(Seq<char>, Seq<char>)> {
    match split_first(t, ':') {
        Some((k, v)) => Some((trim(k), trim_quotes(trim(v)))),
        None => None,
    }
}

/// The state after the record block `fields` is closed.
pub open spec fn close_record(records: Seq<RecordView>, fields: Fields) -> Result<
    Seq<RecordView>,
    ErrorKind,
> {
    if fields.len() == 0 {
        Ok(records)
    } else {
        match record_from_fields(fields) {
            Ok(r) => Ok(records.push(r)),
            Err(k) => Err(k),
        }
    }
}

/// Reading one line.
#[verifier::opaque]
pub open spec fn text_step(st: TextState, line: Seq<char>) -> Result<TextState, ErrorKind> {
    let t = trim(line);
    if t.len() == 0 {
        match st.current {
            Some(f) => match close_record(st.records, f) {
                Ok(rs) => Ok(TextState { records: rs, current: None }),
                Err(k) => Err(k),
            },
            None => Ok(st),
        }
    } else if t[0] == '#' {
        Ok(st)
    } else {
        let f = match st.current {
            Some(f) => f,
            None => seq![],
        };
        match field_of_line(t) {
            Some(kv) => Ok(TextState { records: st.records, current: Some(f.push(kv)) }),
            None => Ok(TextState { records: st.records, current: Some(f) }),
        }
    }
}

/// The records once the data ends.
pub open spec fn text_finish(st: TextState) -> Result<Seq<RecordView>, ErrorKind> {
    match st.current {
        Some(f) => close_record(st.records, f),
        None => Ok(st.records),
    }
}

/// Reading the remaining lines; a line that is not UTF-8 is an `Io` error.
pub open spec fn text_run(st: TextState, ls: Seq<Seq<u8>>) -> Result<Seq<RecordView>, ErrorKind>
    decreases ls.len(),
{
    if ls.len() == 0 {
        text_finish(st)
    } else if !valid_utf8(ls[0]) {
        Err(ErrorKind::Io)
    } else {
        match text_step(st, decode_utf8(ls[0])) {
            Ok(st2) => text_run(st2, ls.drop_first()),
            Err(k) => Err(k),
        }
    }
}

/// What parsing a whole document gives.
pub open spec fn text_parse(data: Seq<u8>) -> Result<Seq<RecordView>, ErrorKind> {
    text_run(initial_state(), lines(data))
}

/// Splits `line` at its first `:` into a trimmed name and a trimmed value;
/// `None` when the line has no `:`.
pub fn parse_field(line: &str) -> (r: Option<(String, String)>)
    ensures
        match split_first(line@, ':') {
            Some((k, v)) => r matches Some((key, value)) && key@ == trim(k) && value@ == trim(v),
            None => r is None,
        },
{
    let c = chars_of(line);
    match find_char(&c, 0, c.len(), ':') {
        Some(k) => {
            proof {
                assert(c@.subrange(0, c@.len() as int) =~= c@);
                crate::chars::lemma_split_first_at(c@, ':', k as int);
            }
            let (a, b) = trim_range(&c, 0, k);
            let (d, e) = trim_range(&c, k + 1, c.len());
            assert(c@.subrange(0, k as int) =~= c@.take(k as int));
            assert(c@.subrange(k + 1, c@.len() as int) =~= c@.skip(k + 1));
            Some((string_from_chars(&copy_range(&c, a, b)), string_from_chars(&copy_range(&c, d, e))))
        },
        None => {
            assert(c@.subrange(0, c@.len() as int) =~= c@);
            None
        },
    }
}

/// `value` stripped of surrounding `"` characters.
pub fn clean_value(value: &str) -> (r: String)
    ensures
        r@ == trim_quotes(value@),
{
    let c = chars_of(value);
    let (a, b) = trim_quotes_range(&c, 0, c.len());
    assert(c@.subrange(0, c@.len() as int) =~= c@);
    string_from_chars(&copy_range(&c, a, b))
}

/// The position of the first `c` in `s[from..to]`, if any.
fn find_char(s: &[char], from: usize, to: usize, c: char) -> (r: Option<usize>)
    requires
        from <= to <= s@.len(),
    ensures
        r matches Some(k) ==> from <= k < to && first_at(
            s@.subrange(from as int, to as int),
            c,
            k - from,
        ),
        r is None ==> forall|j: int| from <= j < to ==> s@[j] != c,
{
    let mut k = from;
    while k < to
        invariant
            from <= k <= to <= s@.len(),
            forall|j: int| from <= j < k ==> s@[j] != c,
        decreases to - k,
    {
        if s[k] == c {
            return Some(k);
        }
        k = k + 1;
    }
    None
}

/// The name and value of the field line `line[from..to]` (already trimmed).
fn line_field(line: &[char], from: usize, to: usize) -> (r: Option<(Vec<char>, Vec<char>)>)
    requires
        from <= to <= line@.len(),
    ensures
        match field_of_line(line@.subrange(from as int, to as int)) {
            Some((k, v)) => r matches Some((key, value)) && key@ == k && value@ == v,
            None => r is None,
        },
{
    let ghost t = line@.subrange(from as int, to as int);
    match find_char(line, from, to, ':') {
        Some(k) => {
            proof {
                crate::chars::lemma_split_first_at(t, ':', k - from);
            }
            let (a, b) = trim_range(line, from, k);
            let (d, e) = trim_range(line, k + 1, to);
            let (f, g) = trim_quotes_range(line, d, e);
            assert(line@.subrange(from as int, k as int) =~= t.take(k - from));
            assert(line@.subrange(k + 1, to as int) =~= t.skip(k - from + 1));
            Some((copy_range(line, a, b), copy_range(line, f, g)))
        },
        None => {
            assert(!exists|k: int| first_at(t, ':', k)) by {
                if exists|k: int| first_at(t, ':', k) {
                    let k = choose|k: int| first_at(t, ':', k);
                    assert(t[k] == line@[from + k]);
                }
            }
            None
        },
    }
}

/// A record block's fields, computed, in the order read. A name is looked up
/// at its last line, so a later line replaces an earlier one, as inserting
/// into a map would; a `BTreeMap<String, String>` is not used because vstd
/// specifies such a map only for keys with a specified order, which `String`
/// does not have.
pub type FieldList = Vec<(Vec<char>, Vec<char>)>;

/// The fields that a computed list holds.
pub open spec fn fields_view(f: Seq<(Vec<char>, Vec<char>)>) -> Fields {
    Seq::new(f.len(), |i: int| (f[i].0@, f[i].1@))
}

/// The position of the last field named `key`, if any.
fn lookup_field(fields: &FieldList, key: &[char]) -> (r: Option<usize>)
    ensures
        match lookup(fields_view(fields@), key@) {
            Some(v) => r matches Some(i) && i < fields@.len() && fields@[i as int].1@ == v,
            None => r is None,
        },
{
    let ghost fv = fields_view(fields@);
    let mut i = fields.len();
    assert(fv.take(i as int) =~= fv);
    while i > 0
        invariant
            0 <= i <= fields@.len(),
            fv == fields_view(fields@),
            lookup(fv, key@) == lookup(fv.take(i as int), key@),
        decreases i,
    {
        let ghost t = fv.take(i as int);
        assert(t.last() == fv[i - 1]);
        assert(t.drop_last() =~= fv.take(i - 1));
        if crate::chars::chars_equal(&fields[i - 1].0, key) {
            return Some(i - 1);
        }
        i = i - 1;
    }
    None
}

/// Characters that `str::to_uppercase` leaves as they are.
pub open spec fn upper_name_char(c: char) -> bool {
    ('A' <= c <= 'Z') || c == '_'
}

/// What `str::to_uppercase` gives for `s`.
pub uninterp spec fn uppercase(s: Seq<char>) -> Seq<char>;

/// The uppercase form of a field name.
///
/// Calls `str::to_uppercase`; the contract names its result, and claims what
/// its documentation says of characters without an uppercase mapping (here
/// `A`-`Z` and `_`): a name made only of them is unchanged.
#[verifier::external_body]
fn to_uppercase(s: &[char]) -> (r: Vec<char>)
    ensures
        r@ == uppercase(s@),
        upper_name(s@) ==> r@ == s@,
{
    s.iter().collect::<String>().to_uppercase().chars().collect()
}

/// A field's value as the record's deserializer sees it.
pub enum FieldValue {
    Number(u64),
    Text(Vec<char>),
}

/// A field's value, as a mathematical value.
pub enum FieldJson {
    Number(u64),
    Text(Seq<char>),
}

/// The mathematical value of a computed field value.
pub open spec fn field_json(v: FieldValue) -> FieldJson {
    match v {
        FieldValue::Number(n) => FieldJson::Number(n),
        FieldValue::Text(t) => FieldJson::Text(t@),
    }
}

/// Names of the number fields.
pub open spec fn is_number_name(u: Seq<char>) -> bool {
    u == field_names()[0] || u == field_names()[2] || u == field_names()[3] || u
        == field_names()[4] || u == field_names()[5]
}

/// Names of the string fields.
pub open spec fn is_text_name(u: Seq<char>) -> bool {
    u == field_names()[1] || u == field_names()[6] || u == field_names()[7]
}

/// The kind of value that a field gets from its uppercase name and its
/// text: a number field whose text is a `u64` gets the number, a string field
/// its text, and any other field a number where its text is one.
pub open spec fn value_for_upper(upper: Seq<char>, value: Seq<char>) -> FieldJson {
    if is_number_name(upper) && parse_u64(value) is Some {
        FieldJson::Number(parse_u64(value)->0)
    } else if is_text_name(upper) {
        FieldJson::Text(value)
    } else {
        match parse_u64(value) {
            Some(n) => FieldJson::Number(n),
            None => FieldJson::Text(value),
        }
    }
}

/// A name made only of `A`-`Z` and `_`.
pub open spec fn upper_name(name: Seq<char>) -> bool {
    forall|i: int| 0 <= i < name.len() ==> upper_name_char(#[trigger] name[i])
}

/// The kind of value that a field gets from its name (compared in
/// uppercase) and its text.
pub fn infer_field_type(name: &[char], value: &[char]) -> (r: FieldValue)
    ensures
        field_json(r) == value_for_upper(uppercase(name@), value@),
        upper_name(name@) ==> field_json(r) == value_for_upper(name@, value@),
{
    let upper = to_uppercase(name);
    value_for_upper_name(&upper, value)
}

/// The kind of value that a field gets from its name, already in uppercase,
/// and its text.
pub fn value_for_upper_name(upper: &[char], value: &[char]) -> (r: FieldValue)
    ensures
        field_json(r) == value_for_upper(upper@, value@),
{
    assert(value@.subrange(0, value@.len() as int) =~= value@);
    let number = parse_u64_radix_range(value, 0, value.len(), 10);
    let numeric = crate::chars::chars_equal(upper, &field_name(0)) || crate::chars::chars_equal(
        upper,
        &field_name(2),
    ) || crate::chars::chars_equal(upper, &field_name(3)) || crate::chars::chars_equal(
        upper,
        &field_name(4),
    ) || crate::chars::chars_equal(upper, &field_name(5));
    let text = crate::chars::chars_equal(upper, &field_name(1)) || crate::chars::chars_equal(
        upper,
        &field_name(6),
    ) || crate::chars::chars_equal(upper, &field_name(7));
    if numeric && number.is_some() {
        FieldValue::Number(number.unwrap())
    } else if text {
        FieldValue::Text(copy_range(value, 0, value.len()))
    } else {
        match number {
            Some(n) => FieldValue::Number(n),
            None => FieldValue::Text(copy_range(value, 0, value.len())),
        }
    }
}

/// Field name number `k` is made of characters that uppercasing keeps.
proof fn lemma_field_name_upper(k: int)
    requires
        0 <= k < 8,
    ensures
        upper_name(field_names()[k]),
{
}

/// The value of the field named `field_names()[k]`, as the deserializer sees
/// it: quoted text loses its quotes, other text gets its inferred kind.
fn field_value(fields: &FieldList, k: usize) -> (r: Option<FieldValue>)
    requires
        k < 8,
    ensures
        match lookup(fields_view(fields@), field_names()[k as int]) {
            Some(v) => r matches Some(j) && field_json(j) == (if quoted(v) {
                FieldJson::Text(trim_quotes(v))
            } else {
                value_for_upper(field_names()[k as int], v)
            }),
            None => r is None,
        },
{
    let name = field_name(k);
    match lookup_field(fields, &name) {
        Some(j) => {
            let v = &fields[j].1;
            let n = v.len();
            if n >= 1 && v[0] == '"' && v[n - 1] == '"' {
                let (a, b) = trim_quotes_range(v, 0, n);
                assert(v@.subrange(0, n as int) =~= v@);
                Some(FieldValue::Text(copy_range(v, a, b)))
            } else {
                proof {
                    lemma_field_name_upper(k as int);
                }
                let r = infer_field_type(&name, v);
                Some(r)
            }
        },
        None => None,
    }
}

/// The record that a block's fields describe, or a `Json` error.
fn deserialize_fields(fields: &FieldList) -> (r: Result<YPBankRecord, ParseError>)
    ensures
        match record_from_fields(fields_view(fields@)) {
            Ok(v) => r matches Ok(rec) && rec@ == v,
            Err(k) => r matches Err(e) && e.kind() == k,
        },
{
    let ghost f = fields_view(fields@);
    let tx_id = field_value(fields, 0);
    let tx_type = field_value(fields, 1);
    let from_user_id = field_value(fields, 2);
    let to_user_id = field_value(fields, 3);
    let amount = field_value(fields, 4);
    let timestamp = field_value(fields, 5);
    let status = field_value(fields, 6);
    let description = field_value(fields, 7);
    proof {
        assert(is_number_name(field_names()[0]));
        assert(is_number_name(field_names()[2]));
        assert(is_number_name(field_names()[3]));
        assert(is_number_name(field_names()[4]));
        assert(is_number_name(field_names()[5]));
        assert(is_text_name(field_names()[1]));
        assert(is_text_name(field_names()[6]));
        assert(is_text_name(field_names()[7]));
    }
    match (tx_id, tx_type, from_user_id, to_user_id, amount, timestamp, status, description) {
        (
            Some(FieldValue::Number(tx_id)),
            Some(FieldValue::Text(t)),
            Some(FieldValue::Number(from_user_id)),
            Some(FieldValue::Number(to_user_id)),
            Some(FieldValue::Number(amount)),
            Some(FieldValue::Number(timestamp)),
            Some(FieldValue::Text(s)),
            Some(FieldValue::Text(d)),
        ) => {
            match (TransactionType::from_chars(&t), TransactionStatus::from_chars(&s)) {
                (Some(tx_type), Some(status)) => {
                    let description = string_from_chars(&d);
                    Ok(
                        YPBankRecord {
                            tx_id,
                            tx_type,
                            from_user_id,
                            to_user_id,
                            amount,
                            timestamp,
                            status,
                            description,
                        },
                    )
                },
                _ => Err(ParseError::Json("unknown transaction type or status".to_string())),
            }
        },
        _ => Err(ParseError::Json("missing field or value of the wrong kind".to_string())),
    }
}

/// Whether a record block is open, with the fields read so far.
pub enum ParseState {
    WaitingForRecord,
    InRecord(FieldList),
}

/// The fields of the open block, if one is open.
pub open spec fn state_fields(s: ParseState) -> Option<Fields> {
    match s {
        ParseState::WaitingForRecord => None,
        ParseState::InRecord(f) => Some(fields_view(f@)),
    }
}

/// Closes the record block `fields`.
fn close_block(records: &mut Vec<YPBankRecord>, fields: &FieldList) -> (r: Result<(), ParseError>)
    ensures
        match close_record(old(records).deep_view(), fields_view(fields@)) {
            Ok(rs) => r is Ok && final(records).deep_view() == rs,
            Err(k) => r matches Err(e) && e.kind() == k,
        },
{
    if fields.len() == 0 {
        return Ok(());
    }
    let rec = match deserialize_fields(fields) {
        Ok(rec) => rec,
        Err(e) => {
            return Err(e);
        },
    };
    let ghost before = records.deep_view();
    let ghost v = rec@;
    records.push(rec);
    assert(records.deep_view() =~= before.push(v));
    Ok(())
}

/// Reads one line.
fn step(state: ParseState, records: &mut Vec<YPBankRecord>, line: &[char]) -> (r: Result<
    ParseState,
    ParseError,
>)
    ensures
        match text_step(
            TextState { records: old(records).deep_view(), current: state_fields(state) },
            line@,
        ) {
            Ok(st) => r matches Ok(s2) && st == (TextState {
                records: final(records).deep_view(),
                current: state_fields(s2),
            }),
            Err(k) => r matches Err(e) && e.kind() == k,
        },
{
    reveal(text_step);
    let (a, b) = trim_range(line, 0, line.len());
    assert(line@.subrange(0, line@.len() as int) =~= line@);
    if a == b {
        match state {
            ParseState::InRecord(fields) => {
                match close_block(records, &fields) {
                    Ok(()) => Ok(ParseState::WaitingForRecord),
                    Err(e) => Err(e),
                }
            },
            ParseState::WaitingForRecord => Ok(ParseState::WaitingForRecord),
        }
    } else if line[a] == '#' {
        Ok(state)
    } else {
        let mut fields = match state {
            ParseState::InRecord(fields) => fields,
            ParseState::WaitingForRecord => {
                let empty: FieldList = Vec::new();
                assert(fields_view(empty@) =~= Seq::<(Seq<char>, Seq<char>)>::empty());
                empty
            },
        };
        match line_field(line, a, b) {
            Some(kv) => {
                let ghost before = fields_view(fields@);
                let ghost kvv = (kv.0@, kv.1@);
                fields.push(kv);
                assert(fields_view(fields@) =~= before.push(kvv));
            },
            None => {},
        }
        Ok(ParseState::InRecord(fields))
    }
}

/// Splitting off the first line of `s`, at its first `\n` or at its end.
pub proof fn lemma_lines_first(s: Seq<u8>, k: int)
    requires
        0 <= k <= s.len(),
        s.len() > 0,
        forall|j: int| 0 <= j < k ==> s[j] != 10,
        k < s.len() ==> s[k] == 10,
    ensures
        k < s.len() ==> lines(s) == seq![s.take(k)] + lines(s.skip(k + 1)),
        k == s.len() ==> lines(s) == seq![s],
{
    if k < s.len() {
        assert(first_newline(s, k));
        let k2 = choose|k: int| first_newline(s, k);
        assert(k2 == k) by {
            if k2 < k {
                assert(s[k2] != 10);
            }
            if k < k2 {
                assert(s[k] != 10);
            }
        }
    } else {
        assert(!exists|k: int| first_newline(s, k));
    }
}

/// Reading a first line, then the rest.
pub proof fn lemma_run_cons(st: TextState, l: Seq<u8>, rest: Seq<Seq<u8>>)
    ensures
        text_run(st, seq![l] + rest) == (if !valid_utf8(l) {
            Err(ErrorKind::Io)
        } else {
            match text_step(st, decode_utf8(l)) {
                Ok(st2) => text_run(st2, rest),
                Err(k) => Err(k),
            }
        }),
{
    assert((seq![l] + rest).drop_first() =~= rest);
    assert((seq![l] + rest)[0] == l);
}

impl Parser for YPBankText {
    type Item = YPBankRecord;

    open spec fn accepts(data: Seq<u8>) -> bool {
        true
    }

    /// Reads records line by line (see the module's documentation).
    fn parse(data: &[u8]) -> (res: Result<Vec<YPBankRecord>, ParseError>)
        ensures
            records_result(res) == text_parse(data@),
    {
        let mut records: Vec<YPBankRecord> = Vec::new();
        let mut state = ParseState::WaitingForRecord;
        let mut pos: usize = 0;
        assert(data@.skip(0) =~= data@);
        assert(records.deep_view() =~= Seq::<RecordView>::empty());
        while pos < data.len()
            invariant
                pos <= data@.len(),
                text_parse(data@) == text_run(
                    TextState { records: records.deep_view(), current: state_fields(state) },
                    lines(data@.skip(pos as int)),
                ),
            decreases data@.len() - pos,
        {
            let ghost s = data@.skip(pos as int);
            let mut k = pos;
            while k < data.len() && data[k] != 10
                invariant
                    pos <= k <= data@.len(),
                    forall|j: int| pos <= j < k ==> data@[j] != 10,
                decreases data@.len() - k,
            {
                k = k + 1;
            }
            let next = if k < data.len() {
                k + 1
            } else {
                k
            };
            let line_bytes = vstd::slice::slice_subrange(data, pos, k);
            proof {
                assert forall|j: int| 0 <= j < k - pos implies s[j] != 10 by {
                    assert(s[j] == data@[pos + j]);
                }
                lemma_lines_first(s, k - pos);
                if k < data.len() {
                    assert(s.take(k - pos) =~= line_bytes@);
                    assert(s.skip(k - pos + 1) =~= data@.skip(next as int));
                } else {
                    assert(s =~= line_bytes@);
                    assert(data@.skip(next as int) =~= Seq::<u8>::empty());
                    assert(seq![s] =~= seq![s] + lines(data@.skip(next as int)));
                }
                assert(lines(s) == seq![line_bytes@] + lines(data@.skip(next as int)));
                lemma_run_cons(
                    TextState { records: records.deep_view(), current: state_fields(state) },
                    line_bytes@,
                    lines(data@.skip(next as int)),
                );
            }
            let text = match string_from_utf8(line_bytes) {
                Ok(text) => text,
                Err(_) => {
                    return Err(ParseError::Io("stream did not contain valid UTF-8".to_string()));
                },
            };
            let line = chars_of(text.as_str());
            state = match step(state, &mut records, &line) {
                Ok(next) => next,
                Err(e) => {
                    return Err(e);
                },
            };
            pos = next;
        }
        assert(data@.skip(pos as int) =~= Seq::<u8>::empty());
        match state {
            ParseState::InRecord(fields) => match close_block(&mut records, &fields) {
                Ok(()) => Ok(records),
                Err(e) => Err(e),
            },
            ParseState::WaitingForRecord => Ok(records),
        }
    }
}

/// The comment line that opens record number `n`.
pub open spec fn comment_line(n: nat) -> Seq<char> {
    seq!['#', ' ', 'R', 'e', 'c', 'o', 'r', 'd', ' '] + decimal(n)
}

/// The line of a number field: `NAME: digits`.
pub open spec fn number_line(i: int, v: u64) -> Seq<char> {
    field_names()[i] + seq![':', ' '] + decimal(v as nat)
}

/// The line of a string field: `NAME: "value"`.
pub open spec fn quoted_line(i: int, v: Seq<char>) -> Seq<char> {
    field_names()[i] + seq![':', ' ', '"'] + v + seq!['"']
}

/// The lines written for record number `n`: a comment, the fields in the
/// alphabetical order of their names, and an empty line.
pub open spec fn record_lines(r: RecordView, n: nat) -> Seq<Seq<char>> {
    seq![
        comment_line(n),
        number_line(4, r.amount),
        quoted_line(7, r.description),
        number_line(2, r.from_user_id),
        quoted_line(6, r.status.name()),
        number_line(5, r.timestamp),
        number_line(3, r.to_user_id),
        number_line(0, r.tx_id),
        quoted_line(1, r.tx_type.name()),
        seq![],
    ]
}

/// The lines written for `rs`, numbered from `first`.
pub open spec fn text_lines(rs: Seq<RecordView>, first: nat) -> Seq<Seq<char>>
    decreases rs.len(),
{
    if rs.len() == 0 {
        seq![]
    } else {
        record_lines(rs[0], first) + text_lines(rs.drop_first(), first + 1)
    }
}

/// Lines, each followed by `\n`.
pub open spec fn join_lines(ls: Seq<Seq<char>>) -> Seq<char>
    decreases ls.len(),
{
    if ls.len() == 0 {
        seq![]
    } else {
        ls[0] + seq!['\n'] + join_lines(ls.drop_first())
    }
}

/// The bytes written for `rs`.
pub open spec fn text_serialize(rs: Seq<RecordView>) -> Seq<u8> {
    encode_utf8(join_lines(text_lines(rs, 1)))
}

proof fn lemma_join_lines_concat(a: Seq<Seq<char>>, b: Seq<Seq<char>>)
    ensures
        join_lines(a + b) == join_lines(a) + join_lines(b),
    decreases a.len(),
{
    if a.len() == 0 {
        assert(a + b =~= b);
    } else {
        assert((a + b).drop_first() =~= a.drop_first() + b);
        lemma_join_lines_concat(a.drop_first(), b);
        assert(join_lines(a + b) =~= join_lines(a) + join_lines(b));
    }
}

pub proof fn lemma_text_lines_push(rs: Seq<RecordView>, r: RecordView, first: nat)
    ensures
        text_lines(rs.push(r), first) == text_lines(rs, first) + record_lines(
            r,
            first + rs.len(),
        ),
    decreases rs.len(),
{
    if rs.len() == 0 {
        assert(rs.push(r).drop_first() =~= Seq::<RecordView>::empty());
        assert(rs.push(r)[0] == r);
        assert(text_lines(rs.push(r).drop_first(), first + 1) == Seq::<Seq<char>>::empty());
        assert(text_lines(rs.push(r), first) =~= record_lines(r, first) + Seq::<
            Seq<char>,
        >::empty());
        assert(text_lines(rs, first) + record_lines(r, first) =~= record_lines(r, first));
    } else {
        assert(rs.push(r).drop_first() =~= rs.drop_first().push(r));
        lemma_text_lines_push(rs.drop_first(), r, first + 1);
        assert(text_lines(rs.push(r), first) =~= text_lines(rs, first) + record_lines(
            r,
            first + rs.len(),
        ));
    }
}

proof fn lemma_join_step(ls: Seq<Seq<char>>, j: int)
    requires
        0 <= j < ls.len(),
    ensures
        join_lines(ls.take(j + 1)) == join_lines(ls.take(j)) + ls[j] + seq!['\n'],
{
    assert(ls.take(j + 1) =~= ls.take(j) + seq![ls[j]]);
    lemma_join_lines_concat(ls.take(j), seq![ls[j]]);
    assert(seq![ls[j]].drop_first() =~= Seq::<Seq<char>>::empty());
    assert(join_lines(seq![ls[j]].drop_first()) == Seq::<char>::empty());
    assert(seq![ls[j]][0] == ls[j]);
    assert(join_lines(seq![ls[j]]) =~= ls[j] + seq!['\n']);
    assert(join_lines(ls.take(j)) + (ls[j] + seq!['\n']) =~= join_lines(ls.take(j)) + ls[j]
        + seq!['\n']);
}

/// Appends `s` to `out`.
fn append_chars(out: &mut Vec<char>, s: &[char])
    ensures
        final(out)@ == old(out)@ + s@,
{
    let mut i: usize = 0;
    let ghost start = out@;
    while i < s.len()
        invariant
            0 <= i <= s@.len(),
            out@ == start + s@.take(i as int),
        decreases s@.len() - i,
    {
        out.push(s[i]);
        i = i + 1;
        assert(out@ =~= start + s@.take(i as int));
    }
    assert(s@.take(s@.len() as int) =~= s@);
}

/// Appends the line `NAME: digits` and a newline.
fn push_number_line(out: &mut Vec<char>, i: usize, v: u64)
    requires
        i < 8,
    ensures
        final(out)@ == old(out)@ + number_line(i as int, v) + seq!['\n'],
{
    append_chars(out, &field_name(i));
    out.push(':');
    out.push(' ');
    append_chars(out, &decimal_chars(v));
    out.push('\n');
    assert(out@ =~= old(out)@ + number_line(i as int, v) + seq!['\n']);
}

/// Appends the line `NAME: "value"` and a newline.
fn push_quoted_line(out: &mut Vec<char>, i: usize, v: &[char])
    requires
        i < 8,
    ensures
        final(out)@ == old(out)@ + quoted_line(i as int, v@) + seq!['\n'],
{
    append_chars(out, &field_name(i));
    out.push(':');
    out.push(' ');
    out.push('"');
    append_chars(out, v);
    out.push('"');
    out.push('\n');
    assert(out@ =~= old(out)@ + quoted_line(i as int, v@) + seq!['\n']);
}

/// Appends the lines of record number `n`.
#[verifier::rlimit(40)]
fn push_record(out: &mut Vec<char>, rec: &YPBankRecord, n: u64)
    ensures
        final(out)@ == old(out)@ + join_lines(record_lines(rec@, n as nat)),
{
    let ghost start = out@;
    let ghost ls = record_lines(rec@, n as nat);
    assert(ls.take(0) =~= Seq::<Seq<char>>::empty());
    append_chars(out, &vec!['#', ' ', 'R', 'e', 'c', 'o', 'r', 'd', ' ']);
    append_chars(out, &decimal_chars(n));
    out.push('\n');
    proof {
        lemma_join_step(ls, 0);
        assert(out@ =~= start + join_lines(ls.take(1)));
    }
    push_number_line(out, 4, rec.amount);
    proof {
        lemma_join_step(ls, 1);
        assert(out@ =~= start + join_lines(ls.take(2)));
    }
    push_quoted_line(out, 7, &chars_of(rec.description.as_str()));
    proof {
        lemma_join_step(ls, 2);
        assert(out@ =~= start + join_lines(ls.take(3)));
    }
    push_number_line(out, 2, rec.from_user_id);
    proof {
        lemma_join_step(ls, 3);
        assert(out@ =~= start + join_lines(ls.take(4)));
    }
    push_quoted_line(out, 6, &rec.status.name_chars());
    proof {
        lemma_join_step(ls, 4);
        assert(out@ =~= start + join_lines(ls.take(5)));
    }
    push_number_line(out, 5, rec.timestamp);
    proof {
        lemma_join_step(ls, 5);
        assert(out@ =~= start + join_lines(ls.take(6)));
    }
    push_number_line(out, 3, rec.to_user_id);
    proof {
        lemma_join_step(ls, 6);
        assert(out@ =~= start + join_lines(ls.take(7)));
    }
    push_number_line(out, 0, rec.tx_id);
    proof {
        lemma_join_step(ls, 7);
        assert(out@ =~= start + join_lines(ls.take(8)));
    }
    push_quoted_line(out, 1, &rec.tx_type.name_chars());
    proof {
        lemma_join_step(ls, 8);
        assert(out@ =~= start + join_lines(ls.take(9)));
    }
    out.push('\n');
    proof {
        lemma_join_step(ls, 9);
        assert(out@ =~= start + join_lines(ls.take(10)));
        assert(ls.take(10) =~= ls);
    }
}

impl Serializer for YPBankText {
    type Item = YPBankRecord;

    /// Writes, for each record, a `# Record n` comment (counting from 1), a
    /// line per field in the alphabetical order of the names (strings in
    /// `"`), and an empty line.
    fn serialize(data: &[YPBankRecord]) -> (res: Result<Vec<u8>, ParseError>)
        ensures
            res matches Ok(b) && b@ == text_serialize(data.deep_view()),
    {
        let mut out: Vec<char> = Vec::new();
        let mut i: usize = 0;
        assert(data.deep_view().take(0) =~= Seq::<RecordView>::empty());
        while i < data.len()
            invariant
                0 <= i <= data@.len(),
                out@ == join_lines(text_lines(data.deep_view().take(i as int), 1)),
            decreases data@.len() - i,
        {
            let ghost before = out@;
            push_record(&mut out, &data[i], (i + 1) as u64);
            proof {
                let dv = data.deep_view();
                assert(dv.take(i + 1) =~= dv.take(i as int).push(dv[i as int]));
                lemma_text_lines_push(dv.take(i as int), dv[i as int], 1);
                lemma_join_lines_concat(
                    text_lines(dv.take(i as int), 1),
                    record_lines(dv[i as int], (i + 1) as nat),
                );
            }
            i = i + 1;
        }
        assert(data.deep_view().take(i as int) =~= data.deep_view());
        let text = string_from_chars(&out);
        Ok(string_bytes(&text))
    }
}

} // verus!
