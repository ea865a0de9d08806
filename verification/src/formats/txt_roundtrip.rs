//! What the text reader makes of documents: what the text writer wrote,
//! comment lines, and field lines in another order.
use crate::chars::{
    first_at, is_ws, lemma_split_first_at, lemma_trim_end_take, lemma_trim_start_skip, trim,
    trim_quotes,
};
use crate::decimal::{decimal, lemma_decimal_parses, lemma_decimal_shape};
use crate::errors::ErrorKind;
use crate::formats::txt::{
    close_record, lemma_text_lines_push, quoted, upper_name_char,
    comment_line, field_of_line, initial_state, join_lines, lemma_lines_first, lemma_run_cons,
    lines,
    lookup, number_field, number_line, quoted_line, record_from_fields, record_lines, text_finish,
    text_lines, text_parse, text_run, text_serialize, text_step, Fields, TextState,
};
use crate::formats::{field_names, RecordView, TransactionStatus, TransactionType};
use vstd::prelude::*;
use vstd::utf8::*;

verus! {

/// A description that the text format carries unchanged: no line break, and
/// no `"` at either end (the reader strips those).
pub open spec fn text_safe(d: Seq<char>) -> bool {
    &&& forall|j: int| 0 <= j < d.len() ==> #[trigger] d[j] != '\n'
    &&& d.len() > 0 ==> d[0] != '"' && d.last() != '"'
}

/// Lines, each followed by the byte `\n`.
pub open spec fn byte_join(bs: Seq<Seq<u8>>) -> Seq<u8>
    decreases bs.len(),
{
    if bs.len() == 0 {
        seq![]
    } else {
        bs[0] + seq![10u8] + byte_join(bs.drop_first())
    }
}

/// Reading lines that are already characters.
pub open spec fn run_chars(st: TextState, ls: Seq<Seq<char>>) -> Result<
    Seq<RecordView>,
    ErrorKind,
>
    decreases ls.len(),
{
    if ls.len() == 0 {
        text_finish(st)
    } else {
        match text_step(st, ls[0]) {
            Ok(st2) => run_chars(st2, ls.drop_first()),
            Err(k) => Err(k),
        }
    }
}

proof fn lemma_encode_concat(a: Seq<char>, b: Seq<char>)
    ensures
        encode_utf8(a + b) == encode_utf8(a) + encode_utf8(b),
    decreases a.len(),
{
    if a.len() == 0 {
        assert(a + b =~= b);
        assert(encode_utf8(a) + encode_utf8(b) =~= encode_utf8(b));
    } else {
        assert((a + b)[0] == a[0]);
        assert((a + b).drop_first() =~= a.drop_first() + b);
        lemma_encode_concat(a.drop_first(), b);
        assert(encode_utf8(a + b) =~= encode_utf8(a) + encode_utf8(b));
    }
}

proof fn lemma_encode_newline()
    ensures
        encode_utf8(seq!['\n']) == seq![10u8],
{
    assert(seq!['\n'].drop_first() =~= Seq::<char>::empty());
    assert(('\n' as u32) == 10);
    assert((10u32 & 0x7F) as u8 == 10u8) by (bit_vector);
    assert(seq!['\n'][0] == '\n');
    assert(encode_utf8(seq!['\n'].drop_first()) == Seq::<u8>::empty());
    assert(encode_scalar(10) =~= seq![10u8]);
    assert(encode_utf8(seq!['\n']) =~= seq![10u8]);
}

proof fn lemma_encode_join(ls: Seq<Seq<char>>)
    ensures
        encode_utf8(join_lines(ls)) == byte_join(ls.map_values(|l: Seq<char>| encode_utf8(l))),
    decreases ls.len(),
{
    let m = ls.map_values(|l: Seq<char>| encode_utf8(l));
    if ls.len() == 0 {
    } else {
        lemma_encode_newline();
        lemma_encode_concat(ls[0], seq!['\n']);
        lemma_encode_concat(ls[0] + seq!['\n'], join_lines(ls.drop_first()));
        lemma_encode_join(ls.drop_first());
        assert(m.drop_first() =~= ls.drop_first().map_values(|l: Seq<char>| encode_utf8(l)));
        assert(m[0] == encode_utf8(ls[0]));
    }
}

proof fn lemma_scalar_no_newline(v: u32)
    requires
        is_scalar(v),
        v != 10,
    ensures
        forall|j: int| 0 <= j < encode_scalar(v).len() ==> #[trigger] encode_scalar(v)[j] != 10,
{
    if has_width_1_encoding(v) {
        assert((v & 0x7F) as u8 != 10u8) by (bit_vector)
            requires
                v <= 0x7F,
                v != 10,
        ;
    } else {
        assert(0xC0u8 | ((v >> 6) & 0x1F) as u8 != 10u8) by (bit_vector);
        assert(0xE0u8 | ((v >> 12) & 0x0F) as u8 != 10u8) by (bit_vector);
        assert(0xF0u8 | ((v >> 18) & 0x7) as u8 != 10u8) by (bit_vector);
        assert(0x80u8 | (v & 0x3F) as u8 != 10u8) by (bit_vector);
        assert(0x80u8 | ((v >> 6) & 0x3F) as u8 != 10u8) by (bit_vector);
        assert(0x80u8 | ((v >> 12) & 0x3F) as u8 != 10u8) by (bit_vector);
    }
}

/// Characters without a line break encode to bytes without the byte `\n`.
proof fn lemma_encode_no_newline(c: Seq<char>)
    requires
        forall|j: int| 0 <= j < c.len() ==> #[trigger] c[j] != '\n',
    ensures
        forall|j: int| 0 <= j < encode_utf8(c).len() ==> #[trigger] encode_utf8(c)[j] != 10,
    decreases c.len(),
{
    if c.len() > 0 {
        let v = c[0] as u32;
        vstd::utf8::char_is_scalar(c[0]);
        assert(v != 10) by {
            if v == 10 {
                vstd::utf8::char_u32_cast(c[0], v);
                assert(c[0] == '\n');
            }
        }
        lemma_scalar_no_newline(v);
        let t = c.drop_first();
        assert forall|j: int| 0 <= j < t.len() implies #[trigger] t[j] != '\n' by {
            assert(t[j] == c[j + 1]);
        }
        lemma_encode_no_newline(t);
        let e = encode_utf8(c);
        let a = encode_scalar(v);
        assert(e == a + encode_utf8(t));
        assert forall|j: int| 0 <= j < e.len() implies #[trigger] e[j] != 10 by {
            if j < a.len() {
                assert(e[j] == a[j]);
            } else {
                assert(e[j] == encode_utf8(t)[j - a.len()]);
            }
        }
    }
}

/// Lines without the byte `\n`, each followed by `\n`, split back into the
/// lines, before the lines of what follows.
proof fn lemma_lines_join(bs: Seq<Seq<u8>>, tail: Seq<u8>)
    requires
        forall|i: int, j: int|
            0 <= i < bs.len() && 0 <= j < bs[i].len() ==> #[trigger] bs[i][j] != 10,
    ensures
        lines(byte_join(bs) + tail) == bs + lines(tail),
    decreases bs.len(),
{
    if bs.len() == 0 {
        assert(byte_join(bs) + tail =~= tail);
        assert(bs + lines(tail) =~= lines(tail));
    } else {
        let rest = byte_join(bs.drop_first());
        let s = byte_join(bs) + tail;
        let k = bs[0].len() as int;
        assert(s =~= bs[0] + seq![10u8] + (rest + tail));
        assert forall|j: int| 0 <= j < k implies s[j] != 10 by {
            assert(s[j] == bs[0][j]);
        }
        lemma_lines_first(s, k);
        assert(s.take(k) =~= bs[0]);
        assert(s.skip(k + 1) =~= rest + tail);
        assert forall|i: int, j: int|
            0 <= i < bs.drop_first().len() && 0 <= j < bs.drop_first()[i].len() implies #[trigger] bs.drop_first()[i][j]
            != 10 by {
            assert(bs.drop_first()[i] == bs[i + 1]);
        }
        lemma_lines_join(bs.drop_first(), tail);
        assert(seq![bs[0]] + (bs.drop_first() + lines(tail)) =~= bs + lines(tail));
    }
}

/// Reading encoded lines is reading the lines.
proof fn lemma_run_encoded(st: TextState, ls: Seq<Seq<char>>)
    ensures
        text_run(st, ls.map_values(|l: Seq<char>| encode_utf8(l))) == run_chars(st, ls),
    decreases ls.len(),
{
    let m = ls.map_values(|l: Seq<char>| encode_utf8(l));
    if ls.len() > 0 {
        vstd::utf8::encode_utf8_valid_utf8(ls[0]);
        vstd::utf8::encode_utf8_decode_utf8(ls[0]);
        assert(m[0] == encode_utf8(ls[0]));
        assert(m.drop_first() =~= ls.drop_first().map_values(|l: Seq<char>| encode_utf8(l)));
        match text_step(st, ls[0]) {
            Ok(st2) => {
                lemma_run_encoded(st2, ls.drop_first());
            },
            Err(_) => {},
        }
    }
}

proof fn lemma_field_name_chars(i: int)
    requires
        0 <= i < 8,
    ensures
        field_names()[i].len() > 0,
        forall|j: int|
            0 <= j < field_names()[i].len() ==> upper_name_char(#[trigger] field_names()[i][j]),
{
}

proof fn lemma_field_names_distinct(a: int, b: int)
    requires
        0 <= a < 8,
        0 <= b < 8,
        a != b,
    ensures
        field_names()[a] != field_names()[b],
{
    if field_names()[a] == field_names()[b] {
        assert(field_names()[a].len() == field_names()[b].len());
        assert(field_names()[a][0] == field_names()[b][0]);
    }
}

proof fn lemma_type_name_chars(t: TransactionType)
    ensures
        t.name().len() > 0,
        forall|j: int| 0 <= j < t.name().len() ==> upper_name_char(#[trigger] t.name()[j]),
{
}

proof fn lemma_status_name_chars(s: TransactionStatus)
    ensures
        s.name().len() > 0,
        forall|j: int| 0 <= j < s.name().len() ==> upper_name_char(#[trigger] s.name()[j]),
{
}

/// Trimming leaves a line alone when neither end is whitespace.
proof fn lemma_trim_noop(s: Seq<char>)
    requires
        s.len() > 0,
        !is_ws(s[0]),
        !is_ws(s.last()),
    ensures
        trim(s) == s,
{
    let p = |c: char| is_ws(c);
    lemma_trim_start_skip(s, p, 0);
    assert(s.skip(0) =~= s);
    lemma_trim_end_take(s, p, s.len() as int);
    assert(s.take(s.len() as int) =~= s);
}

/// The open record's fields, or none.
pub open spec fn open_fields(st: TextState) -> Fields {
    match st.current {
        Some(f) => f,
        None => seq![],
    }
}

/// Reading a line `NAME: value` sets the field `NAME`.
proof fn lemma_step_field(st: TextState, key: Seq<char>, v: Seq<char>)
    requires
        key.len() > 0,
        forall|j: int| 0 <= j < key.len() ==> upper_name_char(#[trigger] key[j]),
        v.len() > 0,
        !is_ws(v[0]),
        !is_ws(v.last()),
    ensures
        text_step(st, key + seq![':', ' '] + v) == Ok::<TextState, ErrorKind>(
            TextState {
                records: st.records,
                current: Some(open_fields(st).push((key, trim_quotes(v)))),
            },
        ),
{
    reveal(text_step);
    let line = key + seq![':', ' '] + v;
    let k = key.len() as int;
    assert(upper_name_char(key[0]));
    assert(line[0] == key[0]);
    assert(line.last() == v.last());
    lemma_trim_noop(line);
    assert(first_at(line, ':', k)) by {
        assert forall|j: int| 0 <= j < k implies line[j] != ':' by {
            assert(line[j] == key[j]);
            assert(upper_name_char(key[j]));
        }
    }
    lemma_split_first_at(line, ':', k);
    assert(line.take(k) =~= key);
    let w = line.skip(k + 1);
    assert(w =~= seq![' '] + v);
    assert(upper_name_char(key[k - 1]));
    lemma_trim_noop(key);
    let p = |c: char| is_ws(c);
    assert(w[1] == v[0]);
    lemma_trim_start_skip(w, p, 1);
    assert(w.skip(1) =~= v);
    lemma_trim_end_take(v, p, v.len() as int);
    assert(v.take(v.len() as int) =~= v);
    assert(trim(w) == v);
    assert(field_of_line(line) == Some((key, trim_quotes(v))));
}

/// Quotes around a value that has none at its ends are stripped.
proof fn lemma_trim_quotes_quoted(body: Seq<char>)
    requires
        body.len() > 0 ==> body[0] != '"' && body.last() != '"',
    ensures
        trim_quotes(seq!['"'] + body + seq!['"']) == body,
{
    let q = |c: char| c == '"';
    let x = seq!['"'] + body + seq!['"'];
    if body.len() == 0 {
        lemma_trim_start_skip(x, q, 2);
        assert(x.skip(2) =~= Seq::<char>::empty());
        lemma_trim_end_take(Seq::<char>::empty(), q, 0);
        assert(Seq::<char>::empty().take(0) =~= body);
    } else {
        assert(x[1] == body[0]);
        lemma_trim_start_skip(x, q, 1);
        let y = x.skip(1);
        assert(y =~= body + seq!['"']);
        assert(y[body.len() - 1] == body.last());
        lemma_trim_end_take(y, q, body.len() as int);
        assert(y.take(body.len() as int) =~= body);
    }
}

/// A value with no `"` at its ends keeps its characters.
proof fn lemma_trim_quotes_plain(v: Seq<char>)
    requires
        v.len() > 0,
        v[0] != '"',
        v.last() != '"',
    ensures
        trim_quotes(v) == v,
{
    let q = |c: char| c == '"';
    lemma_trim_start_skip(v, q, 0);
    assert(v.skip(0) =~= v);
    lemma_trim_end_take(v, q, v.len() as int);
    assert(v.take(v.len() as int) =~= v);
}

/// Reading a number line sets that field to the digits.
proof fn lemma_step_number(st: TextState, i: int, x: u64)
    requires
        0 <= i < 8,
    ensures
        text_step(st, number_line(i, x)) == Ok::<TextState, ErrorKind>(
            TextState {
                records: st.records,
                current: Some(open_fields(st).push((field_names()[i], decimal(x as nat)))),
            },
        ),
{
    lemma_field_name_chars(i);
    lemma_decimal_shape(x as nat);
    let d = decimal(x as nat);
    assert('0' <= d[0] <= '9');
    assert('0' <= d.last() <= '9');
    lemma_step_field(st, field_names()[i], d);
    lemma_trim_quotes_plain(d);
}

/// Reading a quoted line sets that field to what is between the quotes.
proof fn lemma_step_quoted(st: TextState, i: int, body: Seq<char>)
    requires
        0 <= i < 8,
        body.len() > 0 ==> body[0] != '"' && body.last() != '"',
    ensures
        text_step(st, quoted_line(i, body)) == Ok::<TextState, ErrorKind>(
            TextState {
                records: st.records,
                current: Some(open_fields(st).push((field_names()[i], body))),
            },
        ),
{
    lemma_field_name_chars(i);
    let v = seq!['"'] + body + seq!['"'];
    assert(quoted_line(i, body) =~= field_names()[i] + seq![':', ' '] + v);
    assert(v[0] == '"');
    assert(v.last() == '"');
    lemma_step_field(st, field_names()[i], v);
    lemma_trim_quotes_quoted(body);
}

/// A comment line leaves the state alone.
proof fn lemma_step_comment(st: TextState, n: nat)
    ensures
        text_step(st, comment_line(n)) == Ok::<TextState, ErrorKind>(st),
{
    reveal(text_step);
    lemma_decimal_shape(n);
    let c = comment_line(n);
    let d = decimal(n);
    assert(c[0] == '#');
    assert(c.last() == d.last());
    assert('0' <= d.last() <= '9');
    lemma_trim_noop(c);
}

/// The last field named `key` is at `i`.
proof fn lemma_lookup_at(f: Fields, key: Seq<char>, i: int)
    requires
        0 <= i < f.len(),
        f[i].0 == key,
        forall|j: int| i < j < f.len() ==> (#[trigger] f[j]).0 != key,
    ensures
        lookup(f, key) == Some(f[i].1),
    decreases f.len(),
{
    if i < f.len() - 1 {
        assert(f.last() == f[f.len() - 1]);
        let g = f.drop_last();
        assert forall|j: int| i < j < g.len() implies (#[trigger] g[j]).0 != key by {
            assert(g[j] == f[j]);
        }
        lemma_lookup_at(g, key, i);
    }
}

/// The fields that the lines of `r` set, in the order written.
pub open spec fn record_fields(r: RecordView) -> Fields {
    seq![
        (field_names()[4], decimal(r.amount as nat)),
        (field_names()[7], r.description),
        (field_names()[2], decimal(r.from_user_id as nat)),
        (field_names()[6], r.status.name()),
        (field_names()[5], decimal(r.timestamp as nat)),
        (field_names()[3], decimal(r.to_user_id as nat)),
        (field_names()[0], decimal(r.tx_id as nat)),
        (field_names()[1], r.tx_type.name()),
    ]
}

/// The position in [`record_fields`] of field name number `k`.
spec fn field_position(k: int) -> int {
    if k == 4 {
        0
    } else if k == 7 {
        1
    } else if k == 2 {
        2
    } else if k == 6 {
        3
    } else if k == 5 {
        4
    } else if k == 3 {
        5
    } else if k == 0 {
        6
    } else {
        7
    }
}

proof fn lemma_record_fields_lookup(r: RecordView, k: int)
    requires
        0 <= k < 8,
    ensures
        lookup(record_fields(r), field_names()[k]) == Some(
            record_fields(r)[field_position(k)].1,
        ),
{
    let f = record_fields(r);
    let p = field_position(k);
    let order = seq![4int, 7, 2, 6, 5, 3, 0, 1];
    assert forall|j: int| 0 <= j < 8 implies (#[trigger] f[j]).0 == field_names()[order[j]] by {
    }
    assert(order[p] == k);
    assert forall|j: int| p < j < f.len() implies (#[trigger] f[j]).0 != field_names()[k] by {
        assert(order[j] != k);
        assert(0 <= order[j] < 8);
        lemma_field_names_distinct(order[j], k);
        assert(f[j].0 == field_names()[order[j]]);
    }
    lemma_lookup_at(f, field_names()[k], p);
}

/// The fields written for a record describe that record.
proof fn lemma_record_fields_parse(r: RecordView)
    requires
        text_safe(r.description),
    ensures
        record_from_fields(record_fields(r)) == Ok::<RecordView, ErrorKind>(r),
{
    let f = record_fields(r);
    assert forall|k: int| 0 <= k < 8 implies lookup(f, #[trigger] field_names()[k]) == Some(
        field_value(r, k),
    ) by {
        lemma_record_fields_lookup(r, k);
    }
    lemma_record_from_values(f, r);
}

/// The text of field number `k` of `r`, as the reader keeps it: numbers in
/// decimal, the type and status by name, the description as it is.
pub open spec fn field_value(r: RecordView, k: int) -> Seq<char> {
    if k == 0 {
        decimal(r.tx_id as nat)
    } else if k == 1 {
        r.tx_type.name()
    } else if k == 2 {
        decimal(r.from_user_id as nat)
    } else if k == 3 {
        decimal(r.to_user_id as nat)
    } else if k == 4 {
        decimal(r.amount as nat)
    } else if k == 5 {
        decimal(r.timestamp as nat)
    } else if k == 6 {
        r.status.name()
    } else {
        r.description
    }
}

/// Fields that give each of the eight names the text of `r`'s field describe
/// `r`.
proof fn lemma_record_from_values(f: Fields, r: RecordView)
    requires
        text_safe(r.description),
        forall|k: int| 0 <= k < 8 ==> lookup(f, #[trigger] field_names()[k]) == Some(field_value(r, k)),
    ensures
        record_from_fields(f) == Ok::<RecordView, ErrorKind>(r),
{
    lemma_decimal_shape(r.tx_id as nat);
    lemma_decimal_shape(r.from_user_id as nat);
    lemma_decimal_shape(r.to_user_id as nat);
    lemma_decimal_shape(r.amount as nat);
    lemma_decimal_shape(r.timestamp as nat);
    lemma_type_name_chars(r.tx_type);
    lemma_status_name_chars(r.status);
    assert(!quoted(decimal(r.tx_id as nat)) && !quoted(decimal(r.from_user_id as nat))
        && !quoted(decimal(r.to_user_id as nat)) && !quoted(decimal(r.amount as nat))
        && !quoted(decimal(r.timestamp as nat)));
    assert(!quoted(r.tx_type.name()) && !quoted(r.status.name()) && !quoted(r.description));
    assert(lookup(f, field_names()[0]) == Some(field_value(r, 0)));
    assert(lookup(f, field_names()[1]) == Some(field_value(r, 1)));
    assert(lookup(f, field_names()[2]) == Some(field_value(r, 2)));
    assert(lookup(f, field_names()[3]) == Some(field_value(r, 3)));
    assert(lookup(f, field_names()[4]) == Some(field_value(r, 4)));
    assert(lookup(f, field_names()[5]) == Some(field_value(r, 5)));
    assert(lookup(f, field_names()[6]) == Some(field_value(r, 6)));
    assert(lookup(f, field_names()[7]) == Some(field_value(r, 7)));
    lemma_decimal_parses(r.tx_id);
    lemma_decimal_parses(r.from_user_id);
    lemma_decimal_parses(r.to_user_id);
    lemma_decimal_parses(r.amount);
    lemma_decimal_parses(r.timestamp);
    assert(number_field(f, 0) == Some(r.tx_id));
    assert(number_field(f, 2) == Some(r.from_user_id));
    assert(number_field(f, 3) == Some(r.to_user_id));
    assert(number_field(f, 4) == Some(r.amount));
    assert(number_field(f, 5) == Some(r.timestamp));
    assert(TransactionType::from_name(r.tx_type.name()) == Some(r.tx_type));
    assert(TransactionStatus::from_name(r.status.name()) == Some(r.status));
}

proof fn lemma_run_skip(st: TextState, ls: Seq<Seq<char>>, j: int, st2: TextState)
    requires
        0 <= j < ls.len(),
        text_step(st, ls[j]) == Ok::<TextState, ErrorKind>(st2),
    ensures
        run_chars(st, ls.skip(j)) == run_chars(st2, ls.skip(j + 1)),
{
    assert(ls.skip(j)[0] == ls[j]);
    assert(ls.skip(j).drop_first() =~= ls.skip(j + 1));
}

/// Reading the lines of one record, after a closed record, adds it.
proof fn lemma_record_block(recs: Seq<RecordView>, r: RecordView, n: nat, tail: Seq<Seq<char>>)
    requires
        text_safe(r.description),
    ensures
        run_chars(TextState { records: recs, current: None }, record_lines(r, n) + tail)
            == run_chars(TextState { records: recs.push(r), current: None }, tail),
{
    let ls = record_lines(r, n) + tail;
    let st0 = TextState { records: recs, current: None };
    let e = Seq::<(Seq<char>, Seq<char>)>::empty();
    let f1 = e.push((field_names()[4], decimal(r.amount as nat)));
    let f2 = f1.push((field_names()[7], r.description));
    let f3 = f2.push((field_names()[2], decimal(r.from_user_id as nat)));
    let f4 = f3.push((field_names()[6], r.status.name()));
    let f5 = f4.push((field_names()[5], decimal(r.timestamp as nat)));
    let f6 = f5.push((field_names()[3], decimal(r.to_user_id as nat)));
    let f7 = f6.push((field_names()[0], decimal(r.tx_id as nat)));
    let f8 = f7.push((field_names()[1], r.tx_type.name()));
    let s = |f: Fields| TextState { records: recs, current: Some(f) };
    lemma_type_name_chars(r.tx_type);
    lemma_status_name_chars(r.status);
    assert(upper_name_char(r.tx_type.name()[0]) && upper_name_char(r.tx_type.name().last()));
    assert(upper_name_char(r.status.name()[0]) && upper_name_char(r.status.name().last()));
    lemma_step_comment(st0, n);
    lemma_run_skip(st0, ls, 0, st0);
    lemma_step_number(st0, 4, r.amount);
    lemma_run_skip(st0, ls, 1, s(f1));
    lemma_step_quoted(s(f1), 7, r.description);
    lemma_run_skip(s(f1), ls, 2, s(f2));
    lemma_step_number(s(f2), 2, r.from_user_id);
    lemma_run_skip(s(f2), ls, 3, s(f3));
    lemma_step_quoted(s(f3), 6, r.status.name());
    lemma_run_skip(s(f3), ls, 4, s(f4));
    lemma_step_number(s(f4), 5, r.timestamp);
    lemma_run_skip(s(f4), ls, 5, s(f5));
    lemma_step_number(s(f5), 3, r.to_user_id);
    lemma_run_skip(s(f5), ls, 6, s(f6));
    lemma_step_number(s(f6), 0, r.tx_id);
    lemma_run_skip(s(f6), ls, 7, s(f7));
    lemma_step_quoted(s(f7), 1, r.tx_type.name());
    lemma_run_skip(s(f7), ls, 8, s(f8));
    assert(f8 =~= record_fields(r));
    lemma_record_fields_parse(r);
    assert(text_step(s(f8), ls[9]) == Ok::<TextState, ErrorKind>(
        TextState { records: recs.push(r), current: None },
    )) by {
        reveal(text_step);
        assert(ls[9] == Seq::<char>::empty());
        assert(trim(ls[9]).len() == 0);
    }
    lemma_run_skip(s(f8), ls, 9, TextState { records: recs.push(r), current: None });
    assert(ls.skip(0) =~= ls);
    assert(ls.skip(10) =~= tail);
}

/// Reading the lines written for `rs` after closed records `recs` adds them.
proof fn lemma_run_records(recs: Seq<RecordView>, rs: Seq<RecordView>, n: nat)
    requires
        forall|i: int| 0 <= i < rs.len() ==> text_safe(#[trigger] rs[i].description),
    ensures
        run_chars(TextState { records: recs, current: None }, text_lines(rs, n)) == Ok::<
            Seq<RecordView>,
            ErrorKind,
        >(recs + rs),
    decreases rs.len(),
{
    if rs.len() == 0 {
        assert(recs + rs =~= recs);
    } else {
        assert(text_safe(rs[0].description));
        lemma_record_block(recs, rs[0], n, text_lines(rs.drop_first(), n + 1));
        assert forall|i: int| 0 <= i < rs.drop_first().len() implies text_safe(
            #[trigger] rs.drop_first()[i].description,
        ) by {
            assert(rs.drop_first()[i] == rs[i + 1]);
        }
        lemma_run_records(recs.push(rs[0]), rs.drop_first(), n + 1);
        assert(recs.push(rs[0]) + rs.drop_first() =~= recs + rs);
    }
}

/// A line without line breaks.
pub open spec fn plain(l: Seq<char>) -> bool {
    forall|j: int| 0 <= j < l.len() ==> #[trigger] l[j] != '\n'
}

proof fn lemma_plain_concat(a: Seq<char>, b: Seq<char>)
    requires
        plain(a),
        plain(b),
    ensures
        plain(a + b),
{
    assert forall|j: int| 0 <= j < (a + b).len() implies #[trigger] (a + b)[j] != '\n' by {
        if j < a.len() {
            assert((a + b)[j] == a[j]);
        } else {
            assert((a + b)[j] == b[j - a.len()]);
        }
    }
}

proof fn lemma_names_plain(i: int)
    requires
        0 <= i < 8,
    ensures
        plain(field_names()[i]),
{
    lemma_field_name_chars(i);
    assert forall|j: int| 0 <= j < field_names()[i].len() implies #[trigger] field_names()[i][j]
        != '\n' by {
        assert(upper_name_char(field_names()[i][j]));
    }
}

proof fn lemma_number_line_plain(i: int, x: u64)
    requires
        0 <= i < 8,
    ensures
        plain(number_line(i, x)),
{
    lemma_names_plain(i);
    lemma_decimal_shape(x as nat);
    let d = decimal(x as nat);
    assert(plain(d)) by {
        assert forall|j: int| 0 <= j < d.len() implies #[trigger] d[j] != '\n' by {
            assert('0' <= d[j] <= '9');
        }
    }
    assert(plain(seq![':', ' ']));
    lemma_plain_concat(field_names()[i], seq![':', ' ']);
    lemma_plain_concat(field_names()[i] + seq![':', ' '], d);
}

proof fn lemma_quoted_line_plain(i: int, body: Seq<char>)
    requires
        0 <= i < 8,
        plain(body),
    ensures
        plain(quoted_line(i, body)),
{
    lemma_names_plain(i);
    assert(plain(seq![':', ' ', '"']));
    assert(plain(seq!['"']));
    lemma_plain_concat(field_names()[i], seq![':', ' ', '"']);
    lemma_plain_concat(field_names()[i] + seq![':', ' ', '"'], body);
    lemma_plain_concat(field_names()[i] + seq![':', ' ', '"'] + body, seq!['"']);
}

proof fn lemma_record_lines_plain(r: RecordView, n: nat)
    requires
        text_safe(r.description),
    ensures
        forall|i: int| 0 <= i < record_lines(r, n).len() ==> plain(#[trigger] record_lines(r, n)[i]),
{
    let ls = record_lines(r, n);
    lemma_decimal_shape(n);
    let d = decimal(n);
    assert(plain(d)) by {
        assert forall|j: int| 0 <= j < d.len() implies #[trigger] d[j] != '\n' by {
            assert('0' <= d[j] <= '9');
        }
    }
    assert(plain(seq!['#', ' ', 'R', 'e', 'c', 'o', 'r', 'd', ' ']));
    lemma_plain_concat(seq!['#', ' ', 'R', 'e', 'c', 'o', 'r', 'd', ' '], d);
    lemma_number_line_plain(4, r.amount);
    lemma_quoted_line_plain(7, r.description);
    lemma_number_line_plain(2, r.from_user_id);
    lemma_type_name_chars(r.tx_type);
    lemma_status_name_chars(r.status);
    assert(plain(r.status.name())) by {
        assert forall|j: int| 0 <= j < r.status.name().len() implies #[trigger] r.status.name()[j]
            != '\n' by {
            assert(upper_name_char(r.status.name()[j]));
        }
    }
    assert(plain(r.tx_type.name())) by {
        assert forall|j: int| 0 <= j < r.tx_type.name().len() implies #[trigger] r.tx_type.name()[
            j] != '\n' by {
            assert(upper_name_char(r.tx_type.name()[j]));
        }
    }
    lemma_quoted_line_plain(6, r.status.name());
    lemma_number_line_plain(5, r.timestamp);
    lemma_number_line_plain(3, r.to_user_id);
    lemma_number_line_plain(0, r.tx_id);
    lemma_quoted_line_plain(1, r.tx_type.name());
    assert(plain(Seq::<char>::empty()));
}

proof fn lemma_text_lines_plain(rs: Seq<RecordView>, n: nat)
    requires
        forall|i: int| 0 <= i < rs.len() ==> text_safe(#[trigger] rs[i].description),
    ensures
        forall|i: int| 0 <= i < text_lines(rs, n).len() ==> plain(#[trigger] text_lines(rs, n)[i]),
    decreases rs.len(),
{
    if rs.len() > 0 {
        assert(text_safe(rs[0].description));
        lemma_record_lines_plain(rs[0], n);
        assert forall|i: int| 0 <= i < rs.drop_first().len() implies text_safe(
            #[trigger] rs.drop_first()[i].description,
        ) by {
            assert(rs.drop_first()[i] == rs[i + 1]);
        }
        lemma_text_lines_plain(rs.drop_first(), n + 1);
        let a = record_lines(rs[0], n);
        let b = text_lines(rs.drop_first(), n + 1);
        assert forall|i: int| 0 <= i < (a + b).len() implies plain(#[trigger] (a + b)[i]) by {
            if i < a.len() {
                assert((a + b)[i] == a[i]);
            } else {
                assert((a + b)[i] == b[i - a.len()]);
            }
        }
    }
}

/// Reading back what [`YPBankText::serialize`](crate::formats::txt::YPBankText) wrote
/// gives the records back, provided no description holds a line break or
/// starts or ends with `"`.
pub proof fn lemma_text_roundtrip(rs: Seq<RecordView>)
    requires
        forall|i: int| 0 <= i < rs.len() ==> text_safe(#[trigger] rs[i].description),
    ensures
        text_parse(text_serialize(rs)) == Ok::<Seq<RecordView>, ErrorKind>(rs),
{
    let ls = text_lines(rs, 1);
    let m = ls.map_values(|l: Seq<char>| encode_utf8(l));
    lemma_encode_join(ls);
    lemma_text_lines_plain(rs, 1);
    assert forall|i: int, j: int| 0 <= i < m.len() && 0 <= j < m[i].len() implies #[trigger] m[i][j]
        != 10 by {
        assert(plain(ls[i]));
        lemma_encode_no_newline(ls[i]);
        assert(m[i] == encode_utf8(ls[i]));
    }
    lemma_lines_join(m, seq![]);
    assert(byte_join(m) + seq![] =~= byte_join(m));
    assert(m + lines(seq![]) =~= m);
    lemma_run_encoded(TextState { records: seq![], current: None }, ls);
    lemma_run_records(seq![], rs, 1);
    assert(Seq::<RecordView>::empty() + rs =~= rs);
}

/// A comment line before a document changes nothing: reading the line
/// `comment` (no line break; `#` is its first character that is not
/// whitespace) and then `data` gives what reading `data` gives.
pub proof fn lemma_text_comment_ignored(comment: Seq<char>, data: Seq<u8>)
    requires
        plain(comment),
        trim(comment).len() > 0,
        trim(comment)[0] == '#',
    ensures
        text_parse(encode_utf8(comment) + seq![10u8] + data) == text_parse(data),
{
    let e = encode_utf8(comment);
    let s = e + seq![10u8] + data;
    lemma_encode_no_newline(comment);
    assert forall|j: int| 0 <= j < e.len() implies s[j] != 10 by {
        assert(s[j] == e[j]);
    }
    lemma_lines_first(s, e.len() as int);
    assert(s.take(e.len() as int) =~= e);
    assert(s.skip(e.len() as int + 1) =~= data);
    vstd::utf8::encode_utf8_valid_utf8(comment);
    vstd::utf8::encode_utf8_decode_utf8(comment);
    assert(text_step(initial_state(), comment) == Ok::<TextState, ErrorKind>(initial_state())) by {
        reveal(text_step);
    }
    lemma_run_cons(initial_state(), e, lines(data));
}

/// No two fields share a name.
pub open spec fn distinct_names(f: Fields) -> bool {
    forall|i: int, j: int| 0 <= i < f.len() && 0 <= j < f.len() && i != j ==> f[i].0 != f[j].0
}

proof fn lemma_lookup_distinct(f: Fields, key: Seq<char>)
    requires
        distinct_names(f),
    ensures
        forall|v: Seq<char>| lookup(f, key) == Some(v) <==> #[trigger] f.contains((key, v)),
    decreases f.len(),
{
    if f.len() > 0 {
        let g = f.drop_last();
        assert(distinct_names(g)) by {
            assert forall|i: int, j: int|
                0 <= i < g.len() && 0 <= j < g.len() && i != j implies g[i].0 != g[j].0 by {
                assert(g[i] == f[i] && g[j] == f[j]);
            }
        }
        lemma_lookup_distinct(g, key);
        assert forall|v: Seq<char>| lookup(f, key) == Some(v) <==> #[trigger] f.contains(
            (key, v),
        ) by {
            if f.contains((key, v)) {
                let i = choose|i: int| 0 <= i < f.len() && f[i] == (key, v);
                if i < f.len() - 1 {
                    assert(g[i] == f[i]);
                    assert(g.contains((key, v)));
                    assert(f.last().0 != key);
                }
            }
            if lookup(f, key) == Some(v) {
                if f.last().0 == key {
                    assert(f[f.len() - 1] == (key, v));
                } else {
                    assert(lookup(g, key) == Some(v));
                    assert(g.contains((key, v)));
                    let i = choose|i: int| 0 <= i < g.len() && g[i] == (key, v);
                    assert(f[i] == g[i]);
                }
            }
        }
    }
}

/// Two lists of the same fields, each naming every field at most once, give
/// every name the same value.
proof fn lemma_lookup_same(f1: Fields, f2: Fields)
    requires
        f1.to_multiset() == f2.to_multiset(),
        distinct_names(f1),
        distinct_names(f2),
    ensures
        forall|key: Seq<char>| #[trigger] lookup(f1, key) == lookup(f2, key),
{
    broadcast use vstd::seq_lib::group_to_multiset_ensures;

    assert forall|key: Seq<char>| #[trigger] lookup(f1, key) == lookup(f2, key) by {
        lemma_lookup_distinct(f1, key);
        lemma_lookup_distinct(f2, key);
        match lookup(f1, key) {
            Some(v) => {
                assert(f1.contains((key, v)));
                assert(f1.to_multiset().count((key, v)) > 0);
                assert(f2.contains((key, v)));
            },
            None => {
                match lookup(f2, key) {
                    Some(w) => {
                        assert(f2.contains((key, w)));
                        assert(f2.to_multiset().count((key, w)) > 0);
                        assert(f1.contains((key, w)));
                    },
                    None => {},
                }
            },
        }
    }
}

/// Fields that give every name the same value describe the same record.
proof fn lemma_record_from_lookups(f1: Fields, f2: Fields)
    requires
        forall|key: Seq<char>| #[trigger] lookup(f1, key) == lookup(f2, key),
    ensures
        record_from_fields(f1) == record_from_fields(f2),
{
    assert(lookup(f1, field_names()[0]) == lookup(f2, field_names()[0]));
    assert(lookup(f1, field_names()[1]) == lookup(f2, field_names()[1]));
    assert(lookup(f1, field_names()[2]) == lookup(f2, field_names()[2]));
    assert(lookup(f1, field_names()[3]) == lookup(f2, field_names()[3]));
    assert(lookup(f1, field_names()[4]) == lookup(f2, field_names()[4]));
    assert(lookup(f1, field_names()[5]) == lookup(f2, field_names()[5]));
    assert(lookup(f1, field_names()[6]) == lookup(f2, field_names()[6]));
    assert(lookup(f1, field_names()[7]) == lookup(f2, field_names()[7]));
}

/// The order of a record's field lines does not matter: two lists of the
/// same fields, each naming every field at most once, describe the same
/// record (or fail alike).
pub proof fn lemma_fields_order_irrelevant(f1: Fields, f2: Fields)
    requires
        f1.to_multiset() == f2.to_multiset(),
        distinct_names(f1),
        distinct_names(f2),
    ensures
        record_from_fields(f1) == record_from_fields(f2),
{
    lemma_lookup_same(f1, f2);
    lemma_record_from_lookups(f1, f2);
}

/// Two open records that the rest of a document cannot tell apart: both
/// empty or both not, and every name with the same value.
pub open spec fn fields_equiv(f1: Fields, f2: Fields) -> bool {
    &&& (f1.len() == 0) == (f2.len() == 0)
    &&& forall|key: Seq<char>| #[trigger] lookup(f1, key) == lookup(f2, key)
}

/// Two reader states that the rest of a document cannot tell apart.
pub open spec fn states_equiv(a: TextState, b: TextState) -> bool {
    &&& a.records == b.records
    &&& match (a.current, b.current) {
        (None, None) => true,
        (Some(f1), Some(f2)) => fields_equiv(f1, f2),
        _ => false,
    }
}

proof fn lemma_push_equiv(f1: Fields, f2: Fields, kv: (Seq<char>, Seq<char>))
    requires
        fields_equiv(f1, f2),
    ensures
        fields_equiv(f1.push(kv), f2.push(kv)),
{
    assert forall|key: Seq<char>| #[trigger] lookup(f1.push(kv), key) == lookup(f2.push(kv), key) by {
        assert(f1.push(kv).last() == kv && f2.push(kv).last() == kv);
        assert(f1.push(kv).drop_last() =~= f1);
        assert(f2.push(kv).drop_last() =~= f2);
        assert(lookup(f1, key) == lookup(f2, key));
    }
}

proof fn lemma_close_equiv(records: Seq<RecordView>, f1: Fields, f2: Fields)
    requires
        fields_equiv(f1, f2),
    ensures
        close_record(records, f1) == close_record(records, f2),
{
    lemma_record_from_lookups(f1, f2);
}

/// Reading one line in states that cannot be told apart gives states that
/// cannot be told apart, or the same error.
proof fn lemma_step_equiv(a: TextState, b: TextState, line: Seq<char>)
    requires
        states_equiv(a, b),
    ensures
        match (text_step(a, line), text_step(b, line)) {
            (Ok(a2), Ok(b2)) => states_equiv(a2, b2),
            (Err(k1), Err(k2)) => k1 == k2,
            _ => false,
        },
{
    reveal(text_step);
    let t = trim(line);
    if t.len() == 0 {
        match (a.current, b.current) {
            (Some(f1), Some(f2)) => {
                lemma_close_equiv(a.records, f1, f2);
            },
            _ => {},
        }
    } else if t[0] != '#' {
        let f1 = open_fields(a);
        let f2 = open_fields(b);
        assert(fields_equiv(f1, f2));
        match field_of_line(t) {
            Some(kv) => {
                lemma_push_equiv(f1, f2, kv);
            },
            None => {},
        }
    }
}

/// Reading the same lines from states that cannot be told apart gives the
/// same result.
proof fn lemma_run_equiv(a: TextState, b: TextState, ls: Seq<Seq<u8>>)
    requires
        states_equiv(a, b),
    ensures
        text_run(a, ls) == text_run(b, ls),
    decreases ls.len(),
{
    if ls.len() == 0 {
        match (a.current, b.current) {
            (Some(f1), Some(f2)) => {
                lemma_close_equiv(a.records, f1, f2);
            },
            _ => {},
        }
    } else if valid_utf8(ls[0]) {
        let l = decode_utf8(ls[0]);
        lemma_step_equiv(a, b, l);
        match (text_step(a, l), text_step(b, l)) {
            (Ok(a2), Ok(b2)) => {
                lemma_run_equiv(a2, b2, ls.drop_first());
            },
            _ => {},
        }
    }
}

/// A line that sets a field: no line break, and once trimmed, not empty, not
/// a comment, and holding a `:`.
pub open spec fn field_line(l: Seq<char>) -> bool {
    &&& plain(l)
    &&& trim(l).len() > 0
    &&& trim(l)[0] != '#'
    &&& field_of_line(trim(l)) is Some
}

/// The fields that a block of field lines sets, in order.
pub open spec fn block_fields(ls: Seq<Seq<char>>) -> Fields {
    ls.map_values(|l: Seq<char>| field_of_line(trim(l))->0)
}

/// Reading a field line adds its field to the open record.
proof fn lemma_step_field_line(st: TextState, l: Seq<char>)
    requires
        field_line(l),
    ensures
        text_step(st, l) == Ok::<TextState, ErrorKind>(
            TextState {
                records: st.records,
                current: Some(open_fields(st).push(field_of_line(trim(l))->0)),
            },
        ),
{
    reveal(text_step);
}

/// Reading a block of field lines adds its fields to the open record.
proof fn lemma_run_block(st: TextState, ls: Seq<Seq<char>>, rest: Seq<Seq<u8>>)
    requires
        ls.len() > 0 || st.current is Some,
        forall|i: int| 0 <= i < ls.len() ==> field_line(#[trigger] ls[i]),
    ensures
        text_run(st, ls.map_values(|l: Seq<char>| encode_utf8(l)) + rest) == text_run(
            TextState { records: st.records, current: Some(open_fields(st) + block_fields(ls)) },
            rest,
        ),
    decreases ls.len(),
{
    let m = ls.map_values(|l: Seq<char>| encode_utf8(l));
    if ls.len() == 0 {
        assert(m + rest =~= rest);
        assert(open_fields(st) + block_fields(ls) =~= open_fields(st));
    } else {
        let l0 = ls[0];
        assert(field_line(l0));
        let kv = field_of_line(trim(l0))->0;
        let st2 = TextState { records: st.records, current: Some(open_fields(st).push(kv)) };
        lemma_step_field_line(st, l0);
        vstd::utf8::encode_utf8_valid_utf8(l0);
        vstd::utf8::encode_utf8_decode_utf8(l0);
        let tail = ls.drop_first();
        let mt = tail.map_values(|l: Seq<char>| encode_utf8(l));
        assert(m =~= seq![encode_utf8(l0)] + mt);
        assert(m + rest =~= seq![encode_utf8(l0)] + (mt + rest));
        lemma_run_cons(st, encode_utf8(l0), mt + rest);
        assert forall|i: int| 0 <= i < tail.len() implies field_line(#[trigger] tail[i]) by {
            assert(tail[i] == ls[i + 1]);
        }
        lemma_run_block(st2, tail, rest);
        assert(block_fields(ls) =~= seq![kv] + block_fields(tail));
        assert(open_fields(st2) + block_fields(tail) =~= open_fields(st) + block_fields(ls));
    }
}

/// The order of a record's field lines does not matter: a document that
/// opens with a block of field lines reads the same when the block is
/// replaced by one that sets the same fields (each block naming every field
/// at most once), in any order, whatever follows.
pub proof fn lemma_field_lines_order_irrelevant(
    ls1: Seq<Seq<char>>,
    ls2: Seq<Seq<char>>,
    tail: Seq<u8>,
)
    requires
        forall|i: int| 0 <= i < ls1.len() ==> field_line(#[trigger] ls1[i]),
        forall|i: int| 0 <= i < ls2.len() ==> field_line(#[trigger] ls2[i]),
        block_fields(ls1).to_multiset() == block_fields(ls2).to_multiset(),
        distinct_names(block_fields(ls1)),
        distinct_names(block_fields(ls2)),
    ensures
        text_parse(encode_utf8(join_lines(ls1)) + tail) == text_parse(
            encode_utf8(join_lines(ls2)) + tail,
        ),
{
    broadcast use vstd::seq_lib::group_to_multiset_ensures;

    vstd::seq_lib::to_multiset_len(block_fields(ls1));
    vstd::seq_lib::to_multiset_len(block_fields(ls2));
    assert(block_fields(ls1).len() == block_fields(ls2).len());
    if ls1.len() == 0 {
        assert(ls1 =~= ls2);
    } else {
        lemma_block_lines(ls1, tail);
        lemma_block_lines(ls2, tail);
        let st = initial_state();
        lemma_run_block(st, ls1, lines(tail));
        lemma_run_block(st, ls2, lines(tail));
        assert(open_fields(st) + block_fields(ls1) =~= block_fields(ls1));
        assert(open_fields(st) + block_fields(ls2) =~= block_fields(ls2));
        lemma_lookup_same(block_fields(ls1), block_fields(ls2));
        lemma_run_equiv(
            TextState { records: seq![], current: Some(block_fields(ls1)) },
            TextState { records: seq![], current: Some(block_fields(ls2)) },
            lines(tail),
        );
    }
}

/// The lines of a block of lines without line breaks, then what follows.
proof fn lemma_block_lines(ls: Seq<Seq<char>>, tail: Seq<u8>)
    requires
        forall|i: int| 0 <= i < ls.len() ==> field_line(#[trigger] ls[i]),
    ensures
        lines(encode_utf8(join_lines(ls)) + tail) == ls.map_values(|l: Seq<char>| encode_utf8(l))
            + lines(tail),
{
    let m = ls.map_values(|l: Seq<char>| encode_utf8(l));
    lemma_encode_join(ls);
    assert forall|i: int, j: int| 0 <= i < m.len() && 0 <= j < m[i].len() implies #[trigger] m[i][j]
        != 10 by {
        assert(field_line(ls[i]));
        lemma_encode_no_newline(ls[i]);
        assert(m[i] == encode_utf8(ls[i]));
    }
    lemma_lines_join(m, tail);
}

/// The line of field number `k` of `r` as a person might write it: numbers in
/// decimal, the type and status by name, the description in `"`.
pub open spec fn field_line_of(r: RecordView, k: int) -> Seq<char> {
    if k == 1 {
        field_names()[1] + seq![':', ' '] + r.tx_type.name()
    } else if k == 6 {
        field_names()[6] + seq![':', ' '] + r.status.name()
    } else if k == 7 {
        quoted_line(7, r.description)
    } else {
        field_names()[k] + seq![':', ' '] + field_value(r, k)
    }
}

/// An order of the eight fields: each of `0..8` exactly once.
pub open spec fn is_field_order(o: Seq<int>) -> bool {
    &&& o.len() == 8
    &&& forall|i: int| 0 <= i < 8 ==> 0 <= #[trigger] o[i] < 8
    &&& forall|i: int, j: int| 0 <= i < 8 && 0 <= j < 8 && i != j ==> o[i] != o[j]
    &&& forall|k: int| 0 <= k < 8 ==> #[trigger] o.contains(k)
}

/// The lines of `r`'s fields in the order `o`, then an empty line.
pub open spec fn order_lines(r: RecordView, o: Seq<int>) -> Seq<Seq<char>> {
    Seq::new(8, |i: int| field_line_of(r, o[i])).push(seq![])
}

/// The document made of [`order_lines`].
pub open spec fn order_document(r: RecordView, o: Seq<int>) -> Seq<u8> {
    encode_utf8(join_lines(order_lines(r, o)))
}

/// Reading the line of field `k` adds that field with `r`'s text.
proof fn lemma_step_field_line_of(st: TextState, r: RecordView, k: int)
    requires
        0 <= k < 8,
        text_safe(r.description),
    ensures
        text_step(st, field_line_of(r, k)) == Ok::<TextState, ErrorKind>(
            TextState {
                records: st.records,
                current: Some(open_fields(st).push((field_names()[k], field_value(r, k)))),
            },
        ),
{
    if k == 1 || k == 6 {
        let v = if k == 1 {
            r.tx_type.name()
        } else {
            r.status.name()
        };
        lemma_type_name_chars(r.tx_type);
        lemma_status_name_chars(r.status);
        lemma_field_name_chars(k);
        assert(upper_name_char(v[0]) && upper_name_char(v.last()));
        lemma_step_field(st, field_names()[k], v);
        lemma_trim_quotes_plain(v);
    } else if k == 7 {
        lemma_step_quoted(st, 7, r.description);
    } else {
        let x = if k == 0 {
            r.tx_id
        } else if k == 2 {
            r.from_user_id
        } else if k == 3 {
            r.to_user_id
        } else if k == 4 {
            r.amount
        } else {
            r.timestamp
        };
        assert(field_line_of(r, k) == number_line(k, x));
        lemma_step_number(st, k, x);
    }
}

proof fn lemma_field_line_of_plain(r: RecordView, k: int)
    requires
        0 <= k < 8,
        text_safe(r.description),
    ensures
        plain(field_line_of(r, k)),
{
    if k == 1 || k == 6 {
        let v = if k == 1 {
            r.tx_type.name()
        } else {
            r.status.name()
        };
        lemma_type_name_chars(r.tx_type);
        lemma_status_name_chars(r.status);
        assert(plain(v)) by {
            assert forall|j: int| 0 <= j < v.len() implies #[trigger] v[j] != '\n' by {
                assert(upper_name_char(v[j]));
            }
        }
        lemma_names_plain(k);
        assert(plain(seq![':', ' ']));
        lemma_plain_concat(field_names()[k], seq![':', ' ']);
        lemma_plain_concat(field_names()[k] + seq![':', ' '], v);
    } else if k == 7 {
        lemma_quoted_line_plain(7, r.description);
    } else {
        let x = if k == 0 {
            r.tx_id
        } else if k == 2 {
            r.from_user_id
        } else if k == 3 {
            r.to_user_id
        } else if k == 4 {
            r.amount
        } else {
            r.timestamp
        };
        assert(field_line_of(r, k) == number_line(k, x));
        lemma_number_line_plain(k, x);
    }
}

/// The fields that the first `j` lines of [`order_lines`] set.
pub open spec fn order_fields(r: RecordView, o: Seq<int>, j: int) -> Fields {
    Seq::new(j as nat, |i: int| (field_names()[o[i]], field_value(r, o[i])))
}

/// The state after the first `j` lines of [`order_lines`].
pub open spec fn order_state(r: RecordView, o: Seq<int>, j: int) -> TextState {
    TextState {
        records: seq![],
        current: if j == 0 {
            None
        } else {
            Some(order_fields(r, o, j))
        },
    }
}

proof fn lemma_run_order(r: RecordView, o: Seq<int>, j: int)
    requires
        text_safe(r.description),
        is_field_order(o),
        0 <= j <= 8,
    ensures
        run_chars(order_state(r, o, j), order_lines(r, o).skip(j)) == run_chars(
            order_state(r, o, 8),
            order_lines(r, o).skip(8),
        ),
    decreases 8 - j,
{
    if j < 8 {
        let ls = order_lines(r, o);
        let st = order_state(r, o, j);
        assert(ls[j] == field_line_of(r, o[j]));
        lemma_step_field_line_of(st, r, o[j]);
        assert(open_fields(st).push((field_names()[o[j]], field_value(r, o[j]))) =~= order_fields(
            r,
            o,
            j + 1,
        ));
        assert(ls.skip(j)[0] == ls[j]);
        assert(ls.skip(j).drop_first() =~= ls.skip(j + 1));
        lemma_run_order(r, o, j + 1);
    }
}

/// The eight lines of a record, in any order and followed by an empty line,
/// read as that record.
proof fn lemma_order_document(r: RecordView, o: Seq<int>)
    requires
        text_safe(r.description),
        is_field_order(o),
    ensures
        text_parse(order_document(r, o)) == Ok::<Seq<RecordView>, ErrorKind>(seq![r]),
{
    let ls = order_lines(r, o);
    let m = ls.map_values(|l: Seq<char>| encode_utf8(l));
    lemma_encode_join(ls);
    assert forall|i: int| 0 <= i < ls.len() implies plain(#[trigger] ls[i]) by {
        if i < 8 {
            lemma_field_line_of_plain(r, o[i]);
        } else {
            assert(ls[i] == Seq::<char>::empty());
        }
    }
    assert forall|i: int, j: int| 0 <= i < m.len() && 0 <= j < m[i].len() implies #[trigger] m[i][j]
        != 10 by {
        assert(plain(ls[i]));
        lemma_encode_no_newline(ls[i]);
        assert(m[i] == encode_utf8(ls[i]));
    }
    lemma_lines_join(m, seq![]);
    assert(byte_join(m) + seq![] =~= byte_join(m));
    assert(m + lines(seq![]) =~= m);
    lemma_run_encoded(initial_state(), ls);
    assert(order_state(r, o, 0) == initial_state());
    assert(ls.skip(0) =~= ls);
    lemma_run_order(r, o, 0);
    let f = order_fields(r, o, 8);
    assert forall|k: int| 0 <= k < 8 implies lookup(f, #[trigger] field_names()[k]) == Some(
        field_value(r, k),
    ) by {
        assert(o.contains(k));
        let i = choose|i: int| 0 <= i < o.len() && o[i] == k;
        assert forall|j: int| i < j < f.len() implies (#[trigger] f[j]).0 != field_names()[k] by {
            assert(o[j] != k);
            assert(0 <= o[j] < 8);
            lemma_field_names_distinct(o[j], k);
        }
        lemma_lookup_at(f, field_names()[k], i);
    }
    lemma_record_from_values(f, r);
    let rest = ls.skip(8);
    assert(rest =~= seq![Seq::<char>::empty()]);
    let st8 = order_state(r, o, 8);
    let done = TextState { records: seq![r], current: None };
    assert(text_step(st8, rest[0]) == Ok::<TextState, ErrorKind>(done)) by {
        reveal(text_step);
        assert(trim(rest[0]).len() == 0);
        assert(seq![] + seq![r] =~= seq![r]);
    }
    assert(rest.drop_first() =~= Seq::<Seq<char>>::empty());
    assert(run_chars(done, rest.drop_first()) == Ok::<Seq<RecordView>, ErrorKind>(seq![r]));
    assert(run_chars(st8, rest) == Ok::<Seq<RecordView>, ErrorKind>(seq![r]));
    assert(run_chars(initial_state(), ls) == Ok::<Seq<RecordView>, ErrorKind>(seq![r]));
    assert(lines(order_document(r, o)) == m);
    assert(text_run(initial_state(), m) == Ok::<Seq<RecordView>, ErrorKind>(seq![r]));
}

/// The order of a record's field lines does not matter: the eight lines of a
/// record (numbers in decimal, the type and status by name, the description
/// in `"`), followed by an empty line, read as that record whatever their
/// order, provided the description has no line break and no `"` at either
/// end.
pub proof fn lemma_record_lines_any_order(r: RecordView, o1: Seq<int>, o2: Seq<int>)
    requires
        text_safe(r.description),
        is_field_order(o1),
        is_field_order(o2),
    ensures
        text_parse(order_document(r, o1)) == Ok::<Seq<RecordView>, ErrorKind>(seq![r]),
        text_parse(order_document(r, o1)) == text_parse(order_document(r, o2)),
{
    lemma_order_document(r, o1);
    lemma_order_document(r, o2);
}

/// Reading the comment and the eight field lines of `r`, then the end of the
/// data, adds `r` to the records read before.
proof fn lemma_record_block_at_end(recs: Seq<RecordView>, r: RecordView, n: nat)
    requires
        text_safe(r.description),
    ensures
        run_chars(TextState { records: recs, current: None }, record_lines(r, n).drop_last())
            == Ok::<Seq<RecordView>, ErrorKind>(recs.push(r)),
{
    let ls = record_lines(r, n).drop_last();
    let st0 = TextState { records: recs, current: None };
    let e = Seq::<(Seq<char>, Seq<char>)>::empty();
    let f1 = e.push((field_names()[4], decimal(r.amount as nat)));
    let f2 = f1.push((field_names()[7], r.description));
    let f3 = f2.push((field_names()[2], decimal(r.from_user_id as nat)));
    let f4 = f3.push((field_names()[6], r.status.name()));
    let f5 = f4.push((field_names()[5], decimal(r.timestamp as nat)));
    let f6 = f5.push((field_names()[3], decimal(r.to_user_id as nat)));
    let f7 = f6.push((field_names()[0], decimal(r.tx_id as nat)));
    let f8 = f7.push((field_names()[1], r.tx_type.name()));
    let s = |f: Fields| TextState { records: recs, current: Some(f) };
    lemma_type_name_chars(r.tx_type);
    lemma_status_name_chars(r.status);
    assert(upper_name_char(r.tx_type.name()[0]) && upper_name_char(r.tx_type.name().last()));
    assert(upper_name_char(r.status.name()[0]) && upper_name_char(r.status.name().last()));
    lemma_step_comment(st0, n);
    lemma_run_skip(st0, ls, 0, st0);
    lemma_step_number(st0, 4, r.amount);
    lemma_run_skip(st0, ls, 1, s(f1));
    lemma_step_quoted(s(f1), 7, r.description);
    lemma_run_skip(s(f1), ls, 2, s(f2));
    lemma_step_number(s(f2), 2, r.from_user_id);
    lemma_run_skip(s(f2), ls, 3, s(f3));
    lemma_step_quoted(s(f3), 6, r.status.name());
    lemma_run_skip(s(f3), ls, 4, s(f4));
    lemma_step_number(s(f4), 5, r.timestamp);
    lemma_run_skip(s(f4), ls, 5, s(f5));
    lemma_step_number(s(f5), 3, r.to_user_id);
    lemma_run_skip(s(f5), ls, 6, s(f6));
    lemma_step_number(s(f6), 0, r.tx_id);
    lemma_run_skip(s(f6), ls, 7, s(f7));
    lemma_step_quoted(s(f7), 1, r.tx_type.name());
    lemma_run_skip(s(f7), ls, 8, s(f8));
    assert(f8 =~= record_fields(r));
    lemma_record_fields_parse(r);
    assert(ls.skip(0) =~= ls);
    assert(ls.skip(9) =~= Seq::<Seq<char>>::empty());
    assert(run_chars(s(f8), ls.skip(9)) == Ok::<Seq<RecordView>, ErrorKind>(recs.push(r)));
}

/// Reading the lines written for `rs`, after closed records `recs`, then
/// more lines, is reading those lines after `recs + rs`.
proof fn lemma_run_records_then(
    recs: Seq<RecordView>,
    rs: Seq<RecordView>,
    n: nat,
    tail: Seq<Seq<char>>,
)
    requires
        forall|i: int| 0 <= i < rs.len() ==> text_safe(#[trigger] rs[i].description),
    ensures
        run_chars(TextState { records: recs, current: None }, text_lines(rs, n) + tail)
            == run_chars(TextState { records: recs + rs, current: None }, tail),
    decreases rs.len(),
{
    if rs.len() == 0 {
        assert(recs + rs =~= recs);
        assert(text_lines(rs, n) + tail =~= tail);
    } else {
        assert(text_safe(rs[0].description));
        let rest = text_lines(rs.drop_first(), n + 1);
        assert(text_lines(rs, n) + tail =~= record_lines(rs[0], n) + (rest + tail));
        lemma_record_block(recs, rs[0], n, rest + tail);
        assert forall|i: int| 0 <= i < rs.drop_first().len() implies text_safe(
            #[trigger] rs.drop_first()[i].description,
        ) by {
            assert(rs.drop_first()[i] == rs[i + 1]);
        }
        lemma_run_records_then(recs.push(rs[0]), rs.drop_first(), n + 1, tail);
        assert(recs.push(rs[0]) + rs.drop_first() =~= recs + rs);
    }
}

/// A record closed by the end of the data reads as the record its lines
/// name, like one closed by an empty line: what the text writer writes for
/// `rs`, without its final empty line, reads back as `rs`, provided no
/// description holds a line break or starts or ends with `"`.
pub proof fn lemma_text_last_record_at_end(rs: Seq<RecordView>)
    requires
        rs.len() > 0,
        forall|i: int| 0 <= i < rs.len() ==> text_safe(#[trigger] rs[i].description),
    ensures
        text_parse(encode_utf8(join_lines(text_lines(rs, 1).drop_last()))) == Ok::<
            Seq<RecordView>,
            ErrorKind,
        >(rs),
{
    let p = rs.drop_last();
    let last = rs.last();
    assert(p.push(last) =~= rs);
    lemma_text_lines_push(p, last, 1);
    let all = text_lines(rs, 1);
    let block = record_lines(last, 1 + p.len());
    let ls = all.drop_last();
    assert(ls =~= text_lines(p, 1) + block.drop_last());
    lemma_text_lines_plain(rs, 1);
    let m = ls.map_values(|l: Seq<char>| encode_utf8(l));
    lemma_encode_join(ls);
    assert forall|i: int, j: int| 0 <= i < m.len() && 0 <= j < m[i].len() implies #[trigger] m[i][j]
        != 10 by {
        assert(ls[i] == all[i]);
        assert(plain(all[i]));
        lemma_encode_no_newline(ls[i]);
        assert(m[i] == encode_utf8(ls[i]));
    }
    lemma_lines_join(m, seq![]);
    assert(byte_join(m) + seq![] =~= byte_join(m));
    assert(m + lines(seq![]) =~= m);
    lemma_run_encoded(initial_state(), ls);
    assert forall|i: int| 0 <= i < p.len() implies text_safe(#[trigger] p[i].description) by {
        assert(p[i] == rs[i]);
    }
    lemma_run_records_then(seq![], p, 1, block.drop_last());
    assert(Seq::<RecordView>::empty() + p =~= p);
    assert(text_safe(rs[rs.len() - 1].description));
    lemma_record_block_at_end(p, last, 1 + p.len());
}

} // verus!
