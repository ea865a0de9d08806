//! Character-level helpers: conversions between strings, characters and
//! UTF-8 bytes, and the trimming and splitting rules that the text formats
//! use.
use vstd::prelude::*;
use vstd::utf8::*;

verus! {

broadcast use vstd::string::group_string_axioms;

/// The characters that `char::is_whitespace` accepts (Unicode `White_Space`).
pub open spec fn is_ws(c: char) -> bool {
    ||| '\u{9}' <= c <= '\u{d}'
    ||| c == ' '
    ||| c == '\u{85}'
    ||| c == '\u{a0}'
    ||| c == '\u{1680}'
    ||| '\u{2000}' <= c <= '\u{200a}'
    ||| c == '\u{2028}'
    ||| c == '\u{2029}'
    ||| c == '\u{202f}'
    ||| c == '\u{205f}'
    ||| c == '\u{3000}'
}

/// `s` with every leading character that satisfies `p` removed.
pub open spec fn trim_start_by(s: Seq<char>, p: spec_fn(char) -> bool) -> Seq<char>
    decreases s.len(),
{
    if s.len() > 0 && p(s[0]) {
        trim_start_by(s.drop_first(), p)
    } else {
        s
    }
}

/// `s` with every trailing character that satisfies `p` removed.
pub open spec fn trim_end_by(s: Seq<char>, p: spec_fn(char) -> bool) -> Seq<char>
    decreases s.len(),
{
    if s.len() > 0 && p(s.last()) {
        trim_end_by(s.drop_last(), p)
    } else {
        s
    }
}

/// What `str::trim` leaves of `s`.
pub open spec fn trim(s: Seq<char>) -> Seq<char> {
    trim_end_by(trim_start_by(s, |c: char| is_ws(c)), |c: char| is_ws(c))
}

/// What `str::trim_matches('"')` leaves of `s`.
pub open spec fn trim_quotes(s: Seq<char>) -> Seq<char> {
    trim_end_by(trim_start_by(s, |c: char| c == '"'), |c: char| c == '"')
}

/// `k` is the position of the first `c` in `s`.
pub open spec fn first_at(s: Seq<char>, c: char, k: int) -> bool {
    &&& 0 <= k < s.len()
    &&& s[k] == c
    &&& forall|j: int| 0 <= j < k ==> s[j] != c
}

/// `s` split around its first `c`, if it has one.
pub open spec fn split_first(s: Seq<char>, c: char) -> Option<(Seq<char>, Seq<char>)> {
    if exists|k: int| first_at(s, c, k) {
        let k = choose|k: int| first_at(s, c, k);
        Some((s.take(k), s.skip(k + 1)))
    } else {
        None
    }
}

pub proof fn lemma_first_at_unique(s: Seq<char>, c: char, k1: int, k2: int)
    requires
        first_at(s, c, k1),
        first_at(s, c, k2),
    ensures
        k1 == k2,
{
}

/// When `k` is the first `c` in `s`, `split_first` splits there.
pub proof fn lemma_split_first_at(s: Seq<char>, c: char, k: int)
    requires
        first_at(s, c, k),
    ensures
        split_first(s, c) == Some((s.take(k), s.skip(k + 1))),
{
    let k2 = choose|k: int| first_at(s, c, k);
    lemma_first_at_unique(s, c, k, k2);
}

pub proof fn lemma_trim_start_skip(s: Seq<char>, p: spec_fn(char) -> bool, i: int)
    requires
        0 <= i <= s.len(),
        forall|j: int| 0 <= j < i ==> p(#[trigger] s[j]),
        i < s.len() ==> !p(s[i]),
    ensures
        trim_start_by(s, p) == s.skip(i),
    decreases i,
{
    if i == 0 {
        assert(s.skip(0) =~= s);
    } else {
        let t = s.drop_first();
        assert forall|j: int| 0 <= j < i - 1 implies p(#[trigger] t[j]) by {
            assert(t[j] == s[j + 1]);
        }
        lemma_trim_start_skip(t, p, i - 1);
        assert(t.skip(i - 1) =~= s.skip(i));
    }
}

pub proof fn lemma_trim_end_take(s: Seq<char>, p: spec_fn(char) -> bool, j: int)
    requires
        0 <= j <= s.len(),
        forall|k: int| j <= k < s.len() ==> p(#[trigger] s[k]),
        j > 0 ==> !p(s[j - 1]),
    ensures
        trim_end_by(s, p) == s.take(j),
    decreases s.len() - j,
{
    if j == s.len() {
        assert(s.take(j) =~= s);
    } else {
        let t = s.drop_last();
        assert forall|k: int| j <= k < t.len() implies p(#[trigger] t[k]) by {
            assert(t[k] == s[k]);
        }
        lemma_trim_end_take(t, p, j);
        assert(t.take(j) =~= s.take(j));
    }
}

/// Whether `c` is whitespace in the sense of `char::is_whitespace`.
pub fn is_whitespace(c: char) -> (b: bool)
    ensures
        b == is_ws(c),
{
    ('\u{9}' <= c && c <= '\u{d}') || c == ' ' || c == '\u{85}' || c == '\u{a0}' || c
        == '\u{1680}' || ('\u{2000}' <= c && c <= '\u{200a}') || c == '\u{2028}' || c
        == '\u{2029}' || c == '\u{202f}' || c == '\u{205f}' || c == '\u{3000}'
}

/// Positions `(i, j)` such that `s[i..j]` is `s` trimmed of whitespace.
pub fn trim_range(s: &[char], from: usize, to: usize) -> (r: (usize, usize))
    requires
        from <= to <= s@.len(),
    ensures
        from <= r.0 <= r.1 <= to,
        s@.subrange(r.0 as int, r.1 as int) == trim(s@.subrange(from as int, to as int)),
{
    let ghost sub = s@.subrange(from as int, to as int);
    let mut i = from;
    while i < to && is_whitespace(s[i])
        invariant
            from <= i <= to <= s@.len(),
            sub == s@.subrange(from as int, to as int),
            forall|k: int| from <= k < i ==> is_ws(#[trigger] s@[k]),
        decreases to - i,
    {
        i = i + 1;
    }
    proof {
        let p = |c: char| is_ws(c);
        assert forall|k: int| 0 <= k < i - from implies p(#[trigger] sub[k]) by {
            assert(sub[k] == s@[from + k]);
        }
        lemma_trim_start_skip(sub, p, i - from);
        assert(sub.skip(i - from) =~= s@.subrange(i as int, to as int));
    }
    let mut j = to;
    while j > i && is_whitespace(s[j - 1])
        invariant
            from <= i <= j <= to <= s@.len(),
            forall|k: int| j <= k < to ==> is_ws(#[trigger] s@[k]),
        decreases j,
    {
        j = j - 1;
    }
    proof {
        let p = |c: char| is_ws(c);
        let t = s@.subrange(i as int, to as int);
        assert forall|k: int| j - i <= k < t.len() implies p(#[trigger] t[k]) by {
            assert(t[k] == s@[i + k]);
        }
        if j > i {
            assert(t[j - i - 1] == s@[j - 1]);
        }
        lemma_trim_end_take(t, p, j - i);
        assert(t.take(j - i) =~= s@.subrange(i as int, j as int));
    }
    (i, j)
}

/// Positions `(i, j)` such that `s[i..j]` is `s` with its surrounding `"`
/// characters removed.
pub fn trim_quotes_range(s: &[char], from: usize, to: usize) -> (r: (usize, usize))
    requires
        from <= to <= s@.len(),
    ensures
        from <= r.0 <= r.1 <= to,
        s@.subrange(r.0 as int, r.1 as int) == trim_quotes(s@.subrange(from as int, to as int)),
{
    let ghost sub = s@.subrange(from as int, to as int);
    let mut i = from;
    while i < to && s[i] == '"'
        invariant
            from <= i <= to <= s@.len(),
            sub == s@.subrange(from as int, to as int),
            forall|k: int| from <= k < i ==> #[trigger] s@[k] == '"',
        decreases to - i,
    {
        i = i + 1;
    }
    proof {
        let p = |c: char| c == '"';
        assert forall|k: int| 0 <= k < i - from implies p(#[trigger] sub[k]) by {
            assert(sub[k] == s@[from + k]);
        }
        lemma_trim_start_skip(sub, p, i - from);
        assert(sub.skip(i - from) =~= s@.subrange(i as int, to as int));
    }
    let mut j = to;
    while j > i && s[j - 1] == '"'
        invariant
            from <= i <= j <= to <= s@.len(),
            forall|k: int| j <= k < to ==> #[trigger] s@[k] == '"',
        decreases j,
    {
        j = j - 1;
    }
    proof {
        let p = |c: char| c == '"';
        let t = s@.subrange(i as int, to as int);
        assert forall|k: int| j - i <= k < t.len() implies p(#[trigger] t[k]) by {
            assert(t[k] == s@[i + k]);
        }
        if j > i {
            assert(t[j - i - 1] == s@[j - 1]);
        }
        lemma_trim_end_take(t, p, j - i);
        assert(t.take(j - i) =~= s@.subrange(i as int, j as int));
    }
    (i, j)
}

/// A copy of `s[from..to]`.
pub fn copy_range(s: &[char], from: usize, to: usize) -> (r: Vec<char>)
    requires
        from <= to <= s@.len(),
    ensures
        r@ == s@.subrange(from as int, to as int),
{
    let mut r: Vec<char> = Vec::new();
    let mut i = from;
    while i < to
        invariant
            from <= i <= to <= s@.len(),
            r@ == s@.subrange(from as int, i as int),
        decreases to - i,
    {
        r.push(s[i]);
        i = i + 1;
        assert(r@ =~= s@.subrange(from as int, i as int));
    }
    r
}

/// Whether two character sequences are equal.
pub fn chars_equal(a: &[char], b: &[char]) -> (r: bool)
    ensures
        r == (a@ == b@),
{
    if a.len() != b.len() {
        return false;
    }
    let mut i: usize = 0;
    while i < a.len()
        invariant
            a@.len() == b@.len(),
            0 <= i <= a@.len(),
            forall|k: int| 0 <= k < i ==> a@[k] == b@[k],
        decreases a@.len() - i,
    {
        if a[i] != b[i] {
            return false;
        }
        i = i + 1;
    }
    assert(a@ =~= b@);
    true
}

/// The characters of `s`.
pub fn chars_of(s: &str) -> (r: Vec<char>)
    ensures
        r@ == s@,
{
    let mut r: Vec<char> = Vec::new();
    for c in it: s.chars()
        invariant
            r@ == it.seq().take(it.index() as int),
            it.seq() == s@,
    {
        r.push(c);
    }
    r
}

/// Builds a `String` from its characters.
///
/// Calls `FromIterator<char> for String` (`collect`); the contract claims that
/// the string holds exactly the given characters, in order.
#[verifier::external_body]
pub(crate) fn string_from_chars(v: &[char]) -> (s: String)
    ensures
        s@ == v@,
{
    v.iter().collect()
}

/// The UTF-8 bytes of `s`.
pub fn string_bytes(s: &String) -> (b: Vec<u8>)
    ensures
        b@ == encode_utf8(s@),
{
    vstd::slice::slice_to_vec(s.as_str().as_bytes())
}

/// Decodes UTF-8 bytes into a `String`.
///
/// Calls `String::from_utf8`; the contract claims what its documentation
/// says: it succeeds exactly when the bytes are valid UTF-8, and then the
/// string holds the characters that the bytes encode. On failure it hands
/// back the error's message, of which nothing is claimed.
#[verifier::external_body]
pub(crate) fn string_from_utf8(bytes: &[u8]) -> (r: Result<String, String>)
    ensures
        r is Ok <==> valid_utf8(bytes@),
        r matches Ok(s) ==> s@ == decode_utf8(bytes@),
{
    String::from_utf8(bytes.to_vec()).map_err(|e| e.to_string())
}

} // verus!
