//! Signed decimal integers as text: reading them, writing them, and the proof that
//! what is written reads back as the same number.

use vstd::prelude::*;

verus! {

/// Whether `c` is one of the ten ASCII decimal digits.
pub open spec fn is_digit(c: char) -> bool {
    '0' <= c && c <= '9'
}

/// The number that the digit `c` stands for.
pub open spec fn digit_value(c: char) -> int {
    c as int - '0' as int
}

/// The character that writes the digit `d`, for `0 <= d <= 9`.
pub open spec fn digit_char(d: int) -> char {
    if d == 0 {
        '0'
    } else if d == 1 {
        '1'
    } else if d == 2 {
        '2'
    } else if d == 3 {
        '3'
    } else if d == 4 {
        '4'
    } else if d == 5 {
        '5'
    } else if d == 6 {
        '6'
    } else if d == 7 {
        '7'
    } else if d == 8 {
        '8'
    } else {
        '9'
    }
}

/// Whether every character of `s` is a decimal digit.
pub open spec fn all_digits(s: Seq<char>) -> bool {
    forall|i: int| 0 <= i < s.len() ==> is_digit(#[trigger] s[i])
}

/// The number that a run of digits writes in base ten; the empty run writes zero.
pub open spec fn digits_value(s: Seq<char>) -> int
    decreases s.len(),
{
    if s.len() == 0 {
        0
    } else {
        digits_value(s.drop_last()) * 10 + digit_value(s.last())
    }
}

/// The digits of `s` once a leading sign, if there is one, is taken off.
pub open spec fn unsigned_part(s: Seq<char>) -> Seq<char> {
    if s.len() > 0 && (s[0] == '-' || s[0] == '+') {
        s.drop_first()
    } else {
        s
    }
}

/// Whether `s` starts with a minus sign.
pub open spec fn has_minus(s: Seq<char>) -> bool {
    s.len() > 0 && s[0] == '-'
}

/// The integer that `s` writes, if it writes one: an optional `+` or `-`, then one
/// or more decimal digits and nothing else. No bound is put on the value here.
pub open spec fn parse_int(s: Seq<char>) -> Option<int> {
    let body = unsigned_part(s);
    if body.len() == 0 || !all_digits(body) {
        None
    } else if has_minus(s) {
        Some(-digits_value(body))
    } else {
        Some(digits_value(body))
    }
}

/// The 32-bit signed integer that `s` writes: `parse_int`, kept only where the value
/// lies between `i32::MIN` and `i32::MAX`.
pub open spec fn parse_i32_spec(s: Seq<char>) -> Option<i32> {
    match parse_int(s) {
        Some(v) => if i32::MIN <= v <= i32::MAX {
            Some(v as i32)
        } else {
            None
        },
        None => None,
    }
}

/// The decimal digits of `n`, most significant first, with no leading zero.
pub open spec fn nat_digits(n: nat) -> Seq<char>
    decreases n,
{
    if n < 10 {
        seq![digit_char(n as int)]
    } else {
        nat_digits(n / 10).push(digit_char((n % 10) as int))
    }
}

/// The decimal text of `v`: a minus sign where `v` is negative, then the digits of
/// its magnitude.
pub open spec fn int_text(v: int) -> Seq<char> {
    if v < 0 {
        seq!['-'] + nat_digits((-v) as nat)
    } else {
        nat_digits(v as nat)
    }
}

/// A run of digits writes a number that is not negative.
pub proof fn lemma_digits_value_nonnegative(s: Seq<char>)
    requires
        all_digits(s),
    ensures
        digits_value(s) >= 0,
    decreases s.len(),
{
    if s.len() > 0 {
        lemma_digits_value_nonnegative(s.drop_last());
    }
}

/// The digits written for `n` are digits, at least one of them, and they write `n`.
pub proof fn lemma_nat_digits(n: nat)
    ensures
        nat_digits(n).len() > 0,
        all_digits(nat_digits(n)),
        digits_value(nat_digits(n)) == n,
    decreases n,
{
    if n < 10 {
        let s = nat_digits(n);
        assert(s.drop_last() =~= Seq::<char>::empty());
        assert(digits_value(s.drop_last()) == 0);
    } else {
        lemma_nat_digits(n / 10);
        let head = nat_digits(n / 10);
        let s = nat_digits(n);
        assert(s.drop_last() =~= head);
        assert(s.last() == digit_char((n % 10) as int));
    }
}

/// Reading the decimal text of an integer gives that integer back.
pub proof fn lemma_parse_int_text(v: int)
    ensures
        parse_int(int_text(v)) == Some(v),
{
    if v < 0 {
        let n = (-v) as nat;
        lemma_nat_digits(n);
        let s = int_text(v);
        assert(s[0] == '-');
        assert(s.drop_first() =~= nat_digits(n));
    } else {
        lemma_nat_digits(v as nat);
    }
}

/// Reading the decimal text of a 32-bit integer gives that integer back.
pub proof fn lemma_parse_i32_text(v: i32)
    ensures
        parse_i32_spec(int_text(v as int)) == Some(v),
{
    lemma_parse_int_text(v as int);
}

/// Every character of the decimal text of an integer is a digit or a minus sign.
pub proof fn lemma_int_text_chars(v: int, i: int)
    requires
        0 <= i < int_text(v).len(),
    ensures
        is_digit(int_text(v)[i]) || int_text(v)[i] == '-',
{
    if v < 0 {
        lemma_nat_digits((-v) as nat);
    } else {
        lemma_nat_digits(v as nat);
    }
}

/// A run with one more character is all digits exactly where the run was and the
/// character is a digit, and its value is ten times the run's plus the digit's.
proof fn lemma_digits_push(u: Seq<char>, c: char)
    ensures
        all_digits(u.push(c)) <==> all_digits(u) && is_digit(c),
        digits_value(u.push(c)) == digits_value(u) * 10 + digit_value(c),
{
    let w = u.push(c);
    assert(w.drop_last() =~= u);
    assert(w.last() == c);
    if all_digits(w) {
        assert(is_digit(w[u.len() as int]));
        assert forall|i: int| 0 <= i < u.len() implies is_digit(#[trigger] u[i]) by {
            assert(u[i] == w[i]);
        }
    }
}

/// The largest magnitude that a 32-bit signed integer can have, that of `i32::MIN`.
pub open spec fn magnitude_limit() -> int {
    2147483648
}

/// The character that writes the digit `d`.
fn digit_of(d: u32) -> (c: char)
    requires
        d < 10,
    ensures
        c == digit_char(d as int),
{
    if d == 0 {
        '0'
    } else if d == 1 {
        '1'
    } else if d == 2 {
        '2'
    } else if d == 3 {
        '3'
    } else if d == 4 {
        '4'
    } else if d == 5 {
        '5'
    } else if d == 6 {
        '6'
    } else if d == 7 {
        '7'
    } else if d == 8 {
        '8'
    } else {
        '9'
    }
}

/// Appends the decimal digits of `n` to `out`.
fn push_digits(out: &mut String, n: u32)
    ensures
        final(out)@ == old(out)@ + nat_digits(n as nat),
    decreases n,
{
    if n >= 10 {
        push_digits(out, n / 10);
    }
    out.push(digit_of(n % 10));
    assert(final(out)@ =~= old(out)@ + nat_digits(n as nat));
}

/// Appends the decimal text of `v` to `out`.
pub fn push_i32(out: &mut String, v: i32)
    ensures
        final(out)@ == old(out)@ + int_text(v as int),
{
    if v < 0 {
        out.push('-');
        let magnitude: i64 = -(v as i64);
        push_digits(out, magnitude as u32);
        assert(final(out)@ =~= old(out)@ + int_text(v as int));
    } else {
        push_digits(out, v as u32);
    }
}

/// The decimal text of `v`, as `i32`'s `Display` writes it.
pub fn format_i32(v: i32) -> (text: String)
    ensures
        text@ == int_text(v as int),
{
    let mut text = String::new();
    push_i32(&mut text, v);
    assert(text@ =~= int_text(v as int));
    text
}

/// Reads a 32-bit signed integer from its decimal text: an optional sign, then
/// digits only. Returns `None` for every other text and for a value out of range.
pub fn parse_i32(s: &str) -> (r: Option<i32>)
    ensures
        r == parse_i32_spec(s@),
{
    let mut negative = false;
    let mut at_start = true;
    let mut any_digit = false;
    let mut valid = true;
    let mut too_big = false;
    let mut magnitude: i64 = 0;
    for c in it: s.chars()
        invariant
            it.seq() == s@,
            at_start == (it.index() == 0),
            negative == has_minus(s@.take(it.index() as int)),
            any_digit == (unsigned_part(s@.take(it.index() as int)).len() > 0),
            valid == all_digits(unsigned_part(s@.take(it.index() as int))),
            0 <= magnitude <= magnitude_limit(),
            valid && !too_big ==> magnitude == digits_value(
                unsigned_part(s@.take(it.index() as int)),
            ),
            valid && too_big ==> digits_value(unsigned_part(s@.take(it.index() as int)))
                > magnitude_limit(),
    {
        let ghost before = s@.take(it.index() as int);
        let ghost after = s@.take(it.index() as int + 1);
        proof {
            assert(after =~= before.push(c));
            if it.index() > 0 {
                assert(unsigned_part(after) =~= unsigned_part(before).push(c));
                lemma_digits_push(unsigned_part(before), c);
            } else {
                assert(before =~= Seq::<char>::empty());
                if c == '-' || c == '+' {
                    assert(unsigned_part(after) =~= Seq::<char>::empty());
                } else {
                    assert(unsigned_part(after) =~= Seq::<char>::empty().push(c));
                    lemma_digits_push(Seq::<char>::empty(), c);
                }
            }
            if valid {
                lemma_digits_value_nonnegative(unsigned_part(before));
            }
        }
        if at_start && (c == '-' || c == '+') {
            negative = c == '-';
        } else if '0' <= c && c <= '9' {
            any_digit = true;
            if valid && !too_big {
                let d: i64 = (c as u32 - '0' as u32) as i64;
                let next: i64 = magnitude * 10 + d;
                if next > 2147483648 {
                    too_big = true;
                } else {
                    magnitude = next;
                }
            }
        } else {
            any_digit = true;
            valid = false;
        }
        at_start = false;
    }
    proof {
        assert(s@.take(s@.len() as int) =~= s@);
    }
    if !valid || !any_digit || too_big {
        None
    } else if negative {
        Some((-magnitude) as i32)
    } else if magnitude > 2147483647 {
        None
    } else {
        Some(magnitude as i32)
    }
}

} // verus!
