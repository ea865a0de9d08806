//! Unsigned integers written as digit strings: the rules of
//! `u64::from_str_radix` (and so of `str::parse::<u64>`), and decimal output.
use vstd::prelude::*;

verus! {

/// The value of the digit `c` in base `radix` (10 or 16), if it is one.
pub open spec fn digit_value(c: char, radix: nat) -> Option<nat> {
    if '0' <= c <= '9' && (c as nat) - ('0' as nat) < radix {
        Some(((c as nat) - ('0' as nat)) as nat)
    } else if radix == 16 && 'a' <= c <= 'f' {
        Some(((c as nat) - ('a' as nat) + 10) as nat)
    } else if radix == 16 && 'A' <= c <= 'F' {
        Some(((c as nat) - ('A' as nat) + 10) as nat)
    } else {
        None
    }
}

/// The number that the digits `s` write in base `radix`, if all are digits.
pub open spec fn digits_value(s: Seq<char>, radix: nat) -> Option<nat>
    decreases s.len(),
{
    if s.len() == 0 {
        Some(0)
    } else {
        match (digits_value(s.drop_last(), radix), digit_value(s.last(), radix)) {
            (Some(v), Some(d)) => Some(v * radix + d),
            _ => None,
        }
    }
}

/// What `u64::from_str_radix(s, radix)` returns: an optional leading `+`,
/// then at least one digit, and a value that fits in a `u64`.
pub open spec fn parse_u64_radix(s: Seq<char>, radix: nat) -> Option<u64> {
    if s.len() == 0 || s == seq!['+'] {
        None
    } else {
        let body = if s[0] == '+' {
            s.drop_first()
        } else {
            s
        };
        match digits_value(body, radix) {
            Some(v) => if v <= u64::MAX {
                Some(v as u64)
            } else {
                None
            },
            None => None,
        }
    }
}

/// What `str::parse::<u64>` returns.
pub open spec fn parse_u64(s: Seq<char>) -> Option<u64> {
    parse_u64_radix(s, 10)
}

/// The character of the decimal digit `d`.
pub open spec fn digit_char(d: nat) -> char {
    (d + ('0' as nat)) as char
}

/// The decimal digits of `n`, most significant first, with no leading zero.
pub open spec fn decimal(n: nat) -> Seq<char>
    decreases n,
{
    if n < 10 {
        seq![digit_char(n)]
    } else {
        decimal(n / 10).push(digit_char(n % 10))
    }
}

proof fn lemma_digits_value_prefix(s: Seq<char>, radix: nat, k: int)
    requires
        0 <= k <= s.len(),
        radix >= 1,
        digits_value(s, radix) is Some,
    ensures
        digits_value(s.take(k), radix) is Some,
        digits_value(s.take(k), radix)->0 <= digits_value(s, radix)->0,
    decreases s.len(),
{
    if k == s.len() {
        assert(s.take(k) =~= s);
    } else {
        let t = s.drop_last();
        lemma_digits_value_prefix(t, radix, k);
        assert(t.take(k) =~= s.take(k));
        let v = digits_value(t, radix)->0;
        assert(v <= v * radix) by (nonlinear_arith)
            requires
                radix >= 1,
        ;
    }
}

/// The value of the digit `c` in base `radix`, computed.
pub fn digit_of(c: char, radix: u32) -> (r: Option<u32>)
    requires
        radix == 10 || radix == 16,
    ensures
        r matches Some(d) ==> digit_value(c, radix as nat) == Some(d as nat) && d < radix,
        r is None ==> digit_value(c, radix as nat) is None,
{
    if '0' <= c && c <= '9' && (c as u32) - ('0' as u32) < radix {
        Some((c as u32) - ('0' as u32))
    } else if radix == 16 && 'a' <= c && c <= 'f' {
        Some((c as u32) - ('a' as u32) + 10)
    } else if radix == 16 && 'A' <= c && c <= 'F' {
        Some((c as u32) - ('A' as u32) + 10)
    } else {
        None
    }
}

/// Parses `s[from..to]` as `u64::from_str_radix` does.
pub fn parse_u64_radix_range(s: &[char], from: usize, to: usize, radix: u32) -> (r: Option<u64>)
    requires
        from <= to <= s@.len(),
        radix == 10 || radix == 16,
    ensures
        r == parse_u64_radix(s@.subrange(from as int, to as int), radix as nat),
{
    let ghost sub = s@.subrange(from as int, to as int);
    if from == to {
        return None;
    }
    let mut start = from;
    if s[from] == '+' {
        if to - from == 1 {
            assert(sub =~= seq!['+']);
            return None;
        }
        start = from + 1;
    }
    let ghost body = s@.subrange(start as int, to as int);
    assert(body =~= (if sub[0] == '+' {
        sub.drop_first()
    } else {
        sub
    }));
    assert(sub != seq!['+']) by {
        if sub == seq!['+'] {
            assert(sub.len() == 1);
        }
    }
    let mut acc: u64 = 0;
    let mut i = start;
    assert(body.take(0) =~= Seq::<char>::empty());
    while i < to
        invariant
            from <= start <= i <= to <= s@.len(),
            radix == 10 || radix == 16,
            body == s@.subrange(start as int, to as int),
            sub == s@.subrange(from as int, to as int),
            sub.len() > 0,
            sub != seq!['+'],
            body == (if sub[0] == '+' {
                sub.drop_first()
            } else {
                sub
            }),
            digits_value(body.take(i - start), radix as nat) == Some(acc as nat),
        decreases to - i,
    {
        let ghost k = i - start + 1;
        proof {
            assert(body.take(k).drop_last() =~= body.take(k - 1));
            assert(body.take(k).last() == s@[i as int]);
        }
        match digit_of(s[i], radix) {
            None => {
                proof {
                    assert(digits_value(body.take(k), radix as nat) is None);
                    if digits_value(body, radix as nat) is Some {
                        lemma_digits_value_prefix(body, radix as nat, k);
                    }
                }
                return None;
            },
            Some(d) => {
                let next = acc as u128 * radix as u128 + d as u128;
                assert(next == acc * radix + d) by (nonlinear_arith)
                    requires
                        next == acc as u128 * radix as u128 + d as u128,
                        acc <= u64::MAX,
                        radix <= 16,
                        d < 16,
                ;
                assert(digits_value(body.take(k), radix as nat) == Some(next as nat));
                if next > u64::MAX as u128 {
                    proof {
                        if digits_value(body, radix as nat) is Some {
                            lemma_digits_value_prefix(body, radix as nat, k);
                        }
                    }
                    return None;
                }
                acc = next as u64;
                i = i + 1;
            },
        }
    }
    assert(body.take(to - start) =~= body);
    Some(acc)
}

/// The character of the decimal digit `d`, computed.
fn digit_char_of(d: u64) -> (c: char)
    requires
        d < 10,
    ensures
        c == digit_char(d as nat),
        digit_value(c, 10) == Some(d as nat),
{
    ((d as u32) + ('0' as u32)) as u8 as char
}

/// The decimal digits of `n`.
pub fn decimal_chars(n: u64) -> (r: Vec<char>)
    ensures
        r@ == decimal(n as nat),
{
    let mut m = n;
    let mut r: Vec<char> = Vec::new();
    while m >= 10
        invariant
            decimal(n as nat) == decimal(m as nat) + r@,
        decreases m,
    {
        let c = digit_char_of(m % 10);
        proof {
            assert(decimal(m as nat) == decimal((m / 10) as nat).push(c));
            assert(decimal((m / 10) as nat).push(c) + r@ =~= decimal((m / 10) as nat) + seq![c]
                + r@);
        }
        let ghost prev = r@;
        r.insert(0, c);
        assert(r@ =~= seq![c] + prev);
        m = m / 10;
    }
    let c = digit_char_of(m);
    let ghost prev = r@;
    r.insert(0, c);
    assert(r@ =~= seq![c] + prev);
    r
}

/// The decimal digits of `n` are read back as `n`.
pub proof fn lemma_decimal_parses(n: u64)
    ensures
        parse_u64(decimal(n as nat)) == Some(n),
{
    lemma_digits_value_decimal(n as nat);
    lemma_decimal_shape(n as nat);
}

/// Decimal digits are all between `0` and `9`, and there is at least one.
pub proof fn lemma_decimal_shape(n: nat)
    ensures
        decimal(n).len() >= 1,
        forall|i: int| 0 <= i < decimal(n).len() ==> '0' <= #[trigger] decimal(n)[i] <= '9',
    decreases n,
{
    if n >= 10 {
        lemma_decimal_shape(n / 10);
    }
}

proof fn lemma_digits_value_decimal(n: nat)
    ensures
        digits_value(decimal(n), 10) == Some(n),
    decreases n,
{
    lemma_digit_char(n % 10);
    if n < 10 {
        let s = decimal(n);
        assert(s.drop_last() =~= Seq::<char>::empty());
        assert(digits_value(s.drop_last(), 10) == Some(0nat));
        assert(digits_value(s, 10) == Some(n));
    } else {
        lemma_digits_value_decimal(n / 10);
        let s = decimal(n);
        assert(s.drop_last() =~= decimal(n / 10));
        assert(s.last() == digit_char(n % 10));
        assert((n / 10) * 10 + n % 10 == n);
        assert(digits_value(s.drop_last(), 10) == Some(n / 10));
        assert(digit_value(s.last(), 10) == Some(n % 10));
        assert(digits_value(s, 10) == Some(n));
    }
}

proof fn lemma_digit_char(d: nat)
    requires
        d < 10,
    ensures
        digit_value(digit_char(d), 10) == Some(d),
        '0' <= digit_char(d) <= '9',
{
}

} // verus!
