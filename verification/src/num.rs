//! Decimal reading and writing of the whole numbers that appear in
//! work-item codes.

use vstd::prelude::*;

use crate::strutil::push_char;

verus! {

pub open spec fn is_digit(c: char) -> bool {
    '0' <= c && c <= '9'
}

pub open spec fn digit_val(c: char) -> int {
    c as int - '0' as int
}

pub open spec fn digit_char(d: int) -> char {
    if d == 0 { '0' }
    else if d == 1 { '1' }
    else if d == 2 { '2' }
    else if d == 3 { '3' }
    else if d == 4 { '4' }
    else if d == 5 { '5' }
    else if d == 6 { '6' }
    else if d == 7 { '7' }
    else if d == 8 { '8' }
    else { '9' }
}

/// The decimal digits of a whole number, most significant first.
pub open spec fn dec_rep(n: nat) -> Seq<char>
    decreases n,
{
    if n < 10 {
        seq![digit_char(n as int)]
    } else {
        dec_rep(n / 10) + seq![digit_char((n % 10) as int)]
    }
}

/// The decimal form of an integer, with a leading minus sign when negative.
pub open spec fn dec_rep_signed(n: int) -> Seq<char> {
    if n >= 0 {
        dec_rep(n as nat)
    } else {
        seq!['-'] + dec_rep((-n) as nat)
    }
}

pub open spec fn all_digits(s: Seq<char>) -> bool {
    forall|i: int| 0 <= i < s.len() ==> is_digit(#[trigger] s[i])
}

/// The value of a string of decimal digits.
pub open spec fn digits_val(s: Seq<char>) -> int
    decreases s.len(),
{
    if s.len() == 0 {
        0
    } else {
        digits_val(s.drop_last()) * 10 + digit_val(s.last())
    }
}

/// What parsing a decimal integer yields: an optional sign, then at
/// least one digit, nothing else, and a value that fits in an i64.
pub open spec fn parse_i64_spec(s: Seq<char>) -> Option<i64> {
    let negative = s.len() > 0 && s[0] == '-';
    let signed = s.len() > 0 && (s[0] == '-' || s[0] == '+');
    let mag = if signed { s.drop_first() } else { s };
    if mag.len() == 0 || !all_digits(mag) {
        None
    } else {
        let v = if negative { -digits_val(mag) } else { digits_val(mag) };
        if i64::MIN <= v <= i64::MAX {
            Some(v as i64)
        } else {
            None
        }
    }
}

pub proof fn lemma_digits_val_nonneg(s: Seq<char>)
    requires
        all_digits(s),
    ensures
        digits_val(s) >= 0,
    decreases s.len(),
{
    if s.len() > 0 {
        assert(all_digits(s.drop_last()));
        lemma_digits_val_nonneg(s.drop_last());
    }
}

/// Dropping trailing digits can only shrink the value.
pub proof fn lemma_digits_val_prefix(s: Seq<char>, k: int)
    requires
        all_digits(s),
        0 <= k <= s.len(),
    ensures
        digits_val(s.subrange(0, k)) <= digits_val(s),
    decreases s.len() - k,
{
    if k < s.len() {
        let t = s.subrange(0, k + 1);
        assert(all_digits(t));
        assert(t.drop_last() =~= s.subrange(0, k));
        lemma_digits_val_nonneg(t.drop_last());
        assert(digits_val(t) == digits_val(s.subrange(0, k)) * 10 + digit_val(t.last()));
        lemma_digits_val_prefix(s, k + 1);
        assert(s.subrange(0, s.len() as int) =~= s);
    } else {
        assert(s.subrange(0, k) =~= s);
    }
}

/// The decimal form of a number is all digits and reads back as the
/// same number.
pub proof fn lemma_dec_rep_val(n: nat)
    ensures
        all_digits(dec_rep(n)),
        digits_val(dec_rep(n)) == n,
        dec_rep(n).len() >= 1,
        dec_rep(n)[0] != '-' && dec_rep(n)[0] != '+',
    decreases n,
{
    if n < 10 {
        let s = dec_rep(n);
        assert(s.last() == digit_char(n as int));
        assert(s.drop_last() =~= Seq::<char>::empty());
        assert(digits_val(s.drop_last()) == 0);
        assert(digit_val(digit_char(n as int)) == n);
    } else {
        lemma_dec_rep_val(n / 10);
        let s = dec_rep(n);
        assert(s.drop_last() =~= dec_rep(n / 10));
        assert(s.last() == digit_char((n % 10) as int));
        assert(digit_val(digit_char((n % 10) as int)) == n % 10);
        assert(digits_val(s) == (n / 10) * 10 + n % 10);
    }
}

/// Writing an integer in decimal and parsing it back yields the integer.
pub proof fn lemma_dec_roundtrip(n: int)
    requires
        i64::MIN <= n <= i64::MAX,
    ensures
        parse_i64_spec(dec_rep_signed(n)) == Some(n as i64),
{
    if n >= 0 {
        lemma_dec_rep_val(n as nat);
    } else {
        lemma_dec_rep_val((-n) as nat);
        let s = dec_rep_signed(n);
        assert(s[0] == '-');
        assert(s.drop_first() =~= dec_rep((-n) as nat));
    }
}

fn digit_to_char(d: u64) -> (c: char)
    requires
        d < 10,
    ensures
        c == digit_char(d as int),
{
    if d == 0 { '0' }
    else if d == 1 { '1' }
    else if d == 2 { '2' }
    else if d == 3 { '3' }
    else if d == 4 { '4' }
    else if d == 5 { '5' }
    else if d == 6 { '6' }
    else if d == 7 { '7' }
    else if d == 8 { '8' }
    else { '9' }
}

/// Appends the decimal digits of `n` to `out`.
fn push_decimal(out: &mut String, n: u64)
    ensures
        final(out)@ == old(out)@ + dec_rep(n as nat),
    decreases n,
{
    if n < 10 {
        push_char(out, digit_to_char(n));
        proof {
            assert(out@ =~= old(out)@ + dec_rep(n as nat));
        }
    } else {
        push_decimal(out, n / 10);
        push_char(out, digit_to_char(n % 10));
        proof {
            assert(out@ =~= old(out)@ + dec_rep(n as nat));
        }
    }
}

/// The decimal form of an unsigned number, as a string.
pub fn u64_to_string(n: u64) -> (s: String)
    ensures
        s@ == dec_rep(n as nat),
{
    let mut s = String::new();
    push_decimal(&mut s, n);
    proof {
        assert(s@ == Seq::<char>::empty() + dec_rep(n as nat));
        assert(s@ == dec_rep(n as nat));
    }
    s
}

/// The decimal form of a signed number, as a string.
pub fn i64_to_string(n: i64) -> (s: String)
    ensures
        s@ == dec_rep_signed(n as int),
{
    if n >= 0 {
        u64_to_string(n as u64)
    } else {
        let mut s = String::new();
        push_char(&mut s, '-');
        let m: u64 = if n == i64::MIN {
            9223372036854775808u64
        } else {
            (-n) as u64
        };
        push_decimal(&mut s, m);
        proof {
            assert(s@ == Seq::<char>::empty().push('-') + dec_rep(m as nat));
            assert(Seq::<char>::empty().push('-') == seq!['-']);
        }
        s
    }
}

fn is_digit_exec(c: char) -> (b: bool)
    ensures
        b == is_digit(c),
{
    '0' <= c && c <= '9'
}

/// Parses an optionally signed decimal integer, exactly when the whole
/// string is a sign followed by digits and the value fits in an i64.
pub fn parse_i64(s: &str) -> (r: Option<i64>)
    ensures
        r == parse_i64_spec(s@),
{
    let len = s.unicode_len();
    let ghost whole = s@;
    let mut start: usize = 0;
    let mut negative = false;
    if len > 0 {
        let c0 = s.get_char(0);
        if c0 == '-' {
            negative = true;
            start = 1;
        } else if c0 == '+' {
            start = 1;
        }
    }
    let ghost mag = if start == 1 { whole.drop_first() } else { whole };
    proof {
        if start == 1 {
            assert(mag =~= whole.subrange(1, whole.len() as int));
        }
    }
    if start == len {
        return None;
    }
    let limit: u64 = if negative {
        9223372036854775808u64
    } else {
        9223372036854775807u64
    };
    let mut acc: u64 = 0;
    let mut i: usize = start;
    while i < len
        invariant
            whole == s@,
            start <= i <= len,
            len == whole.len(),
            start == 0 || start == 1,
            (start == 1) == (whole.len() > 0 && (whole[0] == '-' || whole[0] == '+')),
            negative == (whole.len() > 0 && whole[0] == '-'),
            start == 1 ==> mag == whole.drop_first(),
            start == 0 ==> mag == whole,
            mag.len() == len - start,
            forall|j: int| 0 <= j < i - start ==> is_digit(#[trigger] mag[j]),
            acc == digits_val(mag.subrange(0, i - start)),
            acc <= limit,
            limit == (if negative { 9223372036854775808u64 } else { 9223372036854775807u64 }),
        decreases len - i,
    {
        let c = s.get_char(i);
        proof {
            if start == 1 {
                assert(whole[i as int] == mag[i - start]);
            } else {
                assert(whole[i as int] == mag[i - start]);
            }
        }
        if !is_digit_exec(c) {
            proof {
                assert(!is_digit(mag[i - start]));
                assert(!all_digits(mag));
            }
            return None;
        }
        let d: u64 = (c as u32 - '0' as u32) as u64;
        assert(d == digit_val(c));
        let ghost prefix = mag.subrange(0, i - start);
        let ghost prefix1 = mag.subrange(0, i + 1 - start);
        proof {
            assert(prefix1.drop_last() =~= prefix);
            assert(prefix1.last() == mag[i - start]);
            assert(digits_val(prefix1) == acc * 10 + d);
        }
        if acc > (limit - d) / 10 {
            // The value read so far already exceeds what an i64 holds.
            proof {
                assert(acc * 10 + d > limit) by (nonlinear_arith)
                    requires
                        acc > (limit - d) / 10,
                        d <= limit,
                        0 <= d,
                        0 <= acc,
                ;
                if all_digits(mag) {
                    assert(forall|j: int| 0 <= j < prefix1.len() ==> is_digit(#[trigger] prefix1[j]));
                    lemma_digits_val_prefix(mag, i + 1 - start);
                    assert(digits_val(mag) >= digits_val(prefix1));
                    assert(digits_val(mag) > limit);
                }
            }
            return None;
        }
        proof {
            assert(acc * 10 + d <= limit) by (nonlinear_arith)
                requires
                    acc <= (limit - d) / 10,
                    d <= limit,
                    0 <= d,
                    0 <= acc,
            ;
        }
        acc = acc * 10 + d;
        i += 1;
    }
    proof {
        assert(mag.subrange(0, mag.len() as int) =~= mag);
        assert(acc == digits_val(mag));
        assert(all_digits(mag));
    }
    if negative {
        if acc == 9223372036854775808u64 {
            Some(i64::MIN)
        } else {
            Some(-(acc as i64))
        }
    } else {
        Some(acc as i64)
    }
}

} // verus!
