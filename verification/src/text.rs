//! Decimal formatting: a number with commas every three digits.

use vstd::arithmetic::div_mod::{lemma_div_denominator, lemma_fundamental_div_mod, lemma_mod_bound};
use vstd::prelude::*;

verus! {

/// Relies on `String::push`: it appends one character to the string.
#[verifier::external_body]
pub(crate) fn string_push(s: &mut String, c: char)
    ensures
        final(s)@ == old(s)@.push(c),
{
    s.push(c);
}

/// The character of a decimal digit value.
pub open spec fn digit_char(d: nat) -> char {
    if d == 0 {
        '0'
    } else if d == 1 {
        '1'
    } else if d == 2 {
        '2'
    } else if d == 3 {
        '3'
    } else if d == 4 {
        '4'
    } else if d == 5 {
        '5'
    } else if d == 6 {
        '6'
    } else if d == 7 {
        '7'
    } else if d == 8 {
        '8'
    } else {
        '9'
    }
}

/// The decimal digits of `n`, most significant first.
pub open spec fn dec_chars(n: nat) -> Seq<char>
    decreases n,
{
    if n < 10 {
        seq![digit_char(n)]
    } else {
        dec_chars(n / 10).push(digit_char(n % 10))
    }
}

/// A digit string with a comma before every group of three digits counted
/// from the right.
pub open spec fn with_commas(digits: Seq<char>) -> Seq<char>
    decreases digits.len(),
{
    if digits.len() <= 3 {
        digits
    } else {
        with_commas(digits.take(digits.len() - 3)) + seq![','] + digits.skip(digits.len() - 3)
    }
}

/// A number has at least one digit.
proof fn lemma_dec_chars_len(n: nat)
    ensures
        dec_chars(n).len() >= 1,
    decreases n,
{
    if n >= 10 {
        lemma_dec_chars_len(n / 10);
    }
}

/// The digit character of a digit value.
fn digit_char_of(d: usize) -> (c: char)
    requires
        d < 10,
    ensures
        c == digit_char(d as nat),
{
    match d {
        0 => '0',
        1 => '1',
        2 => '2',
        3 => '3',
        4 => '4',
        5 => '5',
        6 => '6',
        7 => '7',
        8 => '8',
        _ => '9',
    }
}

/// Append the decimal digits of `n`, most significant first.
fn push_dec_chars(s: &mut String, n: usize)
    ensures
        final(s)@ == old(s)@ + dec_chars(n as nat),
    decreases n,
{
    if n < 10 {
        string_push(s, digit_char_of(n));
        proof {
            assert(final(s)@ =~= old(s)@ + dec_chars(n as nat));
        }
    } else {
        push_dec_chars(s, n / 10);
        string_push(s, digit_char_of(n % 10));
        proof {
            assert(final(s)@ =~= old(s)@ + dec_chars(n as nat));
        }
    }
}

/// The last three digits of a number of four or more digits, and the split
/// of its digit string before them.
proof fn lemma_dec_chars_split(n: nat)
    requires
        n >= 1000,
    ensures
        dec_chars(n) == dec_chars(n / 1000) + seq![
            digit_char((n / 100) % 10),
            digit_char((n / 10) % 10),
            digit_char(n % 10),
        ],
        dec_chars(n).len() > 3,
        dec_chars(n).take(dec_chars(n).len() - 3) == dec_chars(n / 1000),
        dec_chars(n).skip(dec_chars(n).len() - 3) == seq![
            digit_char((n / 100) % 10),
            digit_char((n / 10) % 10),
            digit_char(n % 10),
        ],
{
    lemma_fundamental_div_mod(n as int, 10);
    lemma_mod_bound(n as int, 10);
    lemma_fundamental_div_mod(n as int / 10, 10);
    lemma_mod_bound(n as int / 10, 10);
    lemma_div_denominator(n as int, 10, 10);
    lemma_div_denominator(n as int, 100, 10);
    assert(n / 10 >= 100);
    assert((n / 10) / 10 == n / 100);
    lemma_fundamental_div_mod(n as int / 100, 10);
    lemma_mod_bound(n as int / 100, 10);
    assert((n / 100) / 10 == n / 1000);
    assert(n / 100 >= 10);
    lemma_dec_chars_len(n / 1000 as nat);
    assert(dec_chars(n) == dec_chars(n / 10).push(digit_char(n % 10)));
    assert(dec_chars(n / 10) == dec_chars((n / 10) / 10).push(digit_char((n / 10) % 10)));
    assert(dec_chars(n / 100) == dec_chars((n / 100) / 10).push(digit_char((n / 100) % 10)));
    assert(dec_chars(n) =~= dec_chars(n / 1000) + seq![
        digit_char((n / 100) % 10),
        digit_char((n / 10) % 10),
        digit_char(n % 10),
    ]);
    assert(dec_chars(n).take(dec_chars(n).len() - 3) =~= dec_chars(n / 1000));
    assert(dec_chars(n).skip(dec_chars(n).len() - 3) =~= seq![
        digit_char((n / 100) % 10),
        digit_char((n / 10) % 10),
        digit_char(n % 10),
    ]);
}

/// Append the decimal digits of `n` with a comma before every group of
/// three digits counted from the right.
fn push_thousands(s: &mut String, n: usize)
    ensures
        final(s)@ == old(s)@ + with_commas(dec_chars(n as nat)),
    decreases n,
{
    if n < 1000 {
        push_dec_chars(s, n);
        proof {
            if n >= 100 {
                lemma_fundamental_div_mod(n as int, 10);
                lemma_mod_bound(n as int, 10);
                lemma_fundamental_div_mod(n as int / 10, 10);
                lemma_mod_bound(n as int / 10, 10);
                assert(10 <= n / 10 < 100);
                assert((n / 10) / 10 < 10);
                assert(dec_chars(n as nat) == dec_chars((n / 10) as nat).push(
                    digit_char(n as nat % 10),
                ));
                assert(dec_chars((n / 10) as nat) == dec_chars(((n / 10) / 10) as nat).push(
                    digit_char((n / 10) as nat % 10),
                ));
                assert(dec_chars(n as nat).len() == 3);
            } else if n >= 10 {
                lemma_fundamental_div_mod(n as int, 10);
                lemma_mod_bound(n as int, 10);
                assert(n / 10 < 10);
                assert(dec_chars(n as nat) == dec_chars((n / 10) as nat).push(
                    digit_char(n as nat % 10),
                ));
                assert(dec_chars(n as nat).len() == 2);
            }
            assert(with_commas(dec_chars(n as nat)) == dec_chars(n as nat));
        }
    } else {
        push_thousands(s, n / 1000);
        string_push(s, ',');
        string_push(s, digit_char_of((n / 100) % 10));
        string_push(s, digit_char_of((n / 10) % 10));
        string_push(s, digit_char_of(n % 10));
        proof {
            lemma_dec_chars_split(n as nat);
            assert(final(s)@ =~= old(s)@ + with_commas(dec_chars(n as nat)));
        }
    }
}

/// Format a number with commas every three digits.
pub fn format_thousands(n: usize) -> (r: String)
    ensures
        r@ == with_commas(dec_chars(n as nat)),
{
    let mut s = String::new();
    push_thousands(&mut s, n);
    proof {
        assert(s@ =~= with_commas(dec_chars(n as nat)));
    }
    s
}

} // verus!
