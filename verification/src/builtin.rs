//! What the shell's own commands (`exit`, `cd`, `pwd`) decide before they act.
use vstd::prelude::*;

use crate::lexer::chars_of;

verus! {

/// An ASCII decimal digit.
pub open spec fn is_digit(c: char) -> bool {
    '0' <= c && c <= '9'
}

/// Every character of `d` is a decimal digit.
pub open spec fn all_digits(d: Seq<char>) -> bool {
    forall|k: int| 0 <= k < d.len() ==> is_digit(#[trigger] d[k])
}

/// The number that the decimal digits `d` spell.
pub open spec fn digits_value(d: Seq<char>) -> int
    decreases d.len(),
{
    if d.len() == 0 {
        0
    } else {
        digits_value(d.drop_last()) * 10 + (d.last() as int - '0' as int)
    }
}

/// The `i32` that `s` spells in decimal: an optional `+` or `-`, then one or
/// more ASCII digits, and a value within the range of `i32`; `None` otherwise.
pub open spec fn decimal_i32(s: Seq<char>) -> Option<i32> {
    let signed = s.len() > 0 && (s[0] == '-' || s[0] == '+');
    let body = if signed {
        s.drop_first()
    } else {
        s
    };
    let magnitude = digits_value(body);
    let v = if signed && s[0] == '-' {
        -magnitude
    } else {
        magnitude
    };
    if body.len() == 0 || !all_digits(body) {
        None
    } else if i32::MIN <= v && v <= i32::MAX {
        Some(v as i32)
    } else {
        None
    }
}

/// The status that `exit` ends the shell with: its first argument read as a
/// decimal `i32`, and 0 where there is none or it is not one.
pub open spec fn exit_status(argv: Seq<Seq<char>>) -> i32 {
    if argv.len() > 1 && decimal_i32(argv[1]) is Some {
        decimal_i32(argv[1])->Some_0
    } else {
        0
    }
}

proof fn lemma_digits_value_nonneg(d: Seq<char>)
    requires
        forall|k: int| 0 <= k < d.len() ==> is_digit(#[trigger] d[k]),
    ensures
        digits_value(d) >= 0,
    decreases d.len(),
{
    if d.len() > 0 {
        lemma_digits_value_nonneg(d.drop_last());
    }
}

/// Appending digits never makes the value smaller.
proof fn lemma_digits_value_prefix(d: Seq<char>, k: int)
    requires
        0 <= k <= d.len(),
        forall|i: int| 0 <= i < d.len() ==> is_digit(#[trigger] d[i]),
    ensures
        digits_value(d.take(k)) <= digits_value(d),
    decreases d.len(),
{
    if k < d.len() {
        let p = d.drop_last();
        lemma_digits_value_prefix(p, k);
        assert(p.take(k) == d.take(k));
        lemma_digits_value_nonneg(p);
    } else {
        assert(d.take(k) == d);
    }
}

/// The character of the decimal digit `d`.
pub open spec fn digit_char(d: int) -> char {
    if d == 0 {
        '0'
    } else if d == 1 {
        '1'
    } else if d == 2 {
        '2'
    } else if d == 3 {
        '3'
    } else if d == 4 {
        '4'
    } else if d == 5 {
        '5'
    } else if d == 6 {
        '6'
    } else if d == 7 {
        '7'
    } else if d == 8 {
        '8'
    } else {
        '9'
    }
}

/// The decimal digits of `m`, most significant first, without leading zeros.
pub open spec fn decimal_text(m: nat) -> Seq<char>
    decreases m,
{
    if m < 10 {
        seq![digit_char(m as int)]
    } else {
        decimal_text(m / 10).push(digit_char((m % 10) as int))
    }
}

/// `n` written in decimal, with a `-` in front where it is negative.
pub open spec fn signed_decimal_text(n: int) -> Seq<char> {
    if n < 0 {
        seq!['-'] + decimal_text((-n) as nat)
    } else {
        decimal_text(n as nat)
    }
}

proof fn lemma_digit_char(d: int)
    requires
        0 <= d <= 9,
    ensures
        is_digit(digit_char(d)),
        digit_char(d) as int - '0' as int == d,
{
}

proof fn lemma_decimal_text(m: nat)
    ensures
        all_digits(decimal_text(m)),
        digits_value(decimal_text(m)) == m,
        decimal_text(m).len() >= 1,
    decreases m,
{
    let t = decimal_text(m);
    if m < 10 {
        lemma_digit_char(m as int);
        assert(t.drop_last() == Seq::<char>::empty());
        assert(digits_value(t) == digits_value(t.drop_last()) * 10 + (t.last() as int - '0' as int));
    } else {
        lemma_digit_char((m % 10) as int);
        lemma_decimal_text(m / 10);
        assert(t.drop_last() == decimal_text(m / 10));
        assert(t.last() == digit_char((m % 10) as int));
        assert(digits_value(t) == digits_value(t.drop_last()) * 10 + (t.last() as int - '0' as int));
        assert(m == (m / 10) * 10 + m % 10);
        assert forall|k: int| 0 <= k < t.len() implies is_digit(#[trigger] t[k]) by {
            if k < t.len() - 1 {
                assert(t[k] == decimal_text(m / 10)[k]);
            }
        }
    }
}

/// Every `i32` written in decimal reads back as itself.
pub proof fn lemma_decimal_roundtrip(n: i32)
    ensures
        decimal_i32(signed_decimal_text(n as int)) == Some(n),
{
    if n < 0 {
        let m = (-n) as nat;
        lemma_decimal_text(m);
        let s = signed_decimal_text(n as int);
        assert(s.drop_first() == decimal_text(m));
    } else {
        lemma_decimal_text(n as nat);
        let s = decimal_text(n as nat);
        assert(is_digit(s[0]));
    }
}

/// `s` without a leading `-` or `+`.
pub open spec fn after_sign(s: Seq<char>) -> Seq<char> {
    if s.len() > 0 && (s[0] == '-' || s[0] == '+') {
        s.drop_first()
    } else {
        s
    }
}

/// Only ASCII digits, after an optional sign, read as a number: a text with
/// any other character, or with no digit, is no `i32`; and a negative number
/// is written with a `-`.
pub proof fn lemma_decimal_only_digits(s: Seq<char>)
    ensures
        decimal_i32(s) is Some ==> {
            &&& after_sign(s).len() >= 1
            &&& forall|k: int|
                0 <= k < after_sign(s).len() ==> '0' <= #[trigger] after_sign(s)[k]
                    && after_sign(s)[k] <= '9'
            &&& decimal_i32(s)->Some_0 < 0 ==> s[0] == '-'
        },
{
    if decimal_i32(s) is Some {
        lemma_digits_value_nonneg(after_sign(s));
    }
}

proof fn lemma_digits_value_leading_zero(d: Seq<char>)
    ensures
        digits_value(seq!['0'] + d) == digits_value(d),
    decreases d.len(),
{
    let z = seq!['0'] + d;
    assert(digits_value(z) == digits_value(z.drop_last()) * 10 + (z.last() as int - '0' as int));
    if d.len() == 0 {
        assert(z.drop_last() == Seq::<char>::empty());
        assert(z.last() == '0');
    } else {
        assert(z.drop_last() == seq!['0'] + d.drop_last());
        assert(z.last() == d.last());
        lemma_digits_value_leading_zero(d.drop_last());
    }
}

/// Leading zeros and a leading `+` do not change the number read: for digits
/// `d`, `0d` reads as `d`, `-0d` as `-d`, and `+d` as `d`.
pub proof fn lemma_decimal_zero_and_plus(d: Seq<char>)
    requires
        d.len() >= 1,
        forall|k: int| 0 <= k < d.len() ==> '0' <= #[trigger] d[k] && d[k] <= '9',
    ensures
        decimal_i32(seq!['0'] + d) == decimal_i32(d),
        decimal_i32(seq!['-', '0'] + d) == decimal_i32(seq!['-'] + d),
        decimal_i32(seq!['+'] + d) == decimal_i32(d),
{
    lemma_digits_value_leading_zero(d);
    let z = seq!['0'] + d;
    assert(after_sign(z) == z);
    assert(after_sign(d) == d);
    assert(all_digits(z)) by {
        assert forall|k: int| 0 <= k < z.len() implies is_digit(#[trigger] z[k]) by {
            if k > 0 {
                assert(z[k] == d[k - 1]);
            }
        }
    }
    assert((seq!['-', '0'] + d).drop_first() == z);
    assert((seq!['-'] + d).drop_first() == d);
    assert((seq!['+'] + d).drop_first() == d);
}

/// Numbers beyond the range of `i32` are no `i32`.
pub proof fn lemma_decimal_out_of_range(n: int)
    requires
        n < i32::MIN || n > i32::MAX,
    ensures
        decimal_i32(signed_decimal_text(n)) is None,
{
    if n < 0 {
        lemma_decimal_text((-n) as nat);
        assert((seq!['-'] + decimal_text((-n) as nat)).drop_first() == decimal_text((-n) as nat));
    } else {
        lemma_decimal_text(n as nat);
        assert(is_digit(decimal_text(n as nat)[0]));
    }
}

/// Reads `s` as a decimal `i32`, as `decimal_i32` says.
pub fn parse_decimal_i32(s: &str) -> (r: Option<i32>)
    ensures
        r == decimal_i32(s@),
{
    let cs = chars_of(s);
    let n = cs.len();
    let ghost sv = s@;
    let signed = n > 0 && (cs[0] == '-' || cs[0] == '+');
    let negative = n > 0 && cs[0] == '-';
    let start: usize = if signed {
        1
    } else {
        0
    };
    let ghost body = if signed {
        sv.drop_first()
    } else {
        sv
    };
    assert(body == cs@.skip(start as int));
    if start == n {
        return None;
    }
    let limit: i64 = if negative {
        2147483648
    } else {
        2147483647
    };
    let mut acc: i64 = 0;
    let mut i = start;
    while i < n
        invariant
            cs@ == sv,
            sv == s@,
            n == cs@.len(),
            signed == (sv.len() > 0 && (sv[0] == '-' || sv[0] == '+')),
            negative == (sv.len() > 0 && sv[0] == '-'),
            start == (if signed {
                1usize
            } else {
                0usize
            }),
            body == (if signed {
                sv.drop_first()
            } else {
                sv
            }),
            body == cs@.skip(start as int),
            start <= i <= n,
            start < n,
            forall|k: int| start <= k < i ==> is_digit(#[trigger] cs@[k]),
            acc == digits_value(cs@.subrange(start as int, i as int)),
            0 <= acc <= limit,
            limit == (if negative {
                2147483648i64
            } else {
                2147483647i64
            }),
        decreases n - i,
    {
        let c = cs[i];
        if !('0' <= c && c <= '9') {
            assert(!is_digit(body[i - start]));
            return None;
        }
        let d = (c as u32 - '0' as u32) as i64;
        let ghost prev = cs@.subrange(start as int, i as int);
        let ghost next = cs@.subrange(start as int, i + 1);
        assert(next.drop_last() == prev);
        acc = acc * 10 + d;
        i = i + 1;
        assert(acc == digits_value(next));
        if acc > limit {
            // The value only grows with more digits: out of range, or not a number at all.
            proof {
                if forall|k: int| 0 <= k < body.len() ==> is_digit(#[trigger] body[k]) {
                    assert(body.take(i - start) == next);
                    lemma_digits_value_prefix(body, i - start);
                }
            }
            return None;
        }
    }
    assert(cs@.subrange(start as int, n as int) == body);
    assert forall|k: int| 0 <= k < body.len() implies is_digit(#[trigger] body[k]) by {
        assert(body[k] == cs@[start + k]);
    }
    if negative {
        Some((-acc) as i32)
    } else {
        Some(acc as i32)
    }
}

/// Whether two strings have the same characters.
pub fn same_text(a: &str, b: &str) -> (r: bool)
    ensures
        r == (a@ == b@),
{
    let x = chars_of(a);
    let y = chars_of(b);
    if x.len() != y.len() {
        return false;
    }
    let mut i: usize = 0;
    while i < x.len()
        invariant
            x@ == a@,
            y@ == b@,
            x@.len() == y@.len(),
            i <= x@.len(),
            forall|k: int| 0 <= k < i ==> x@[k] == y@[k],
        decreases x@.len() - i,
    {
        if x[i] != y[i] {
            return false;
        }
        i = i + 1;
    }
    assert(x@ == y@);
    true
}

/// The status that `exit` with arguments `argv` ends the shell with.
pub fn exit_status_of(argv: &Vec<String>) -> (r: i32)
    ensures
        r == exit_status(argv@.map_values(|s: String| s@)),
{
    if argv.len() > 1 {
        match parse_decimal_i32(argv[1].as_str()) {
            Some(c) => c,
            None => 0,
        }
    } else {
        0
    }
}

} // verus!
