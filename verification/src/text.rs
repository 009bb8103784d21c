//! Decimal rendering of integers into strings, for the human-readable forms
//! of dates, periods and errors.

use vstd::prelude::*;

verus! {

/// The ASCII digit for `d` in `0..=9`.
pub open spec fn digit_char(d: int) -> char {
    if d == 0 { '0' } else if d == 1 { '1' } else if d == 2 { '2' } else if d == 3 { '3' }
    else if d == 4 { '4' } else if d == 5 { '5' } else if d == 6 { '6' } else if d == 7 { '7' }
    else if d == 8 { '8' } else { '9' }
}

/// Shortest decimal form of a natural number (`"0"` for zero).
pub open spec fn decimal(n: nat) -> Seq<char>
    decreases n,
{
    if n < 10 {
        seq![digit_char(n as int)]
    } else {
        decimal(n / 10).push(digit_char((n % 10) as int))
    }
}

/// `count` copies of `'0'`.
pub open spec fn zeros(count: int) -> Seq<char> {
    Seq::new(if count > 0 { count as nat } else { 0 }, |i: int| '0')
}

/// Decimal form of `n` left-padded with zeros to at least `width` characters.
pub open spec fn padded_decimal(n: nat, width: int) -> Seq<char> {
    zeros(width - decimal(n).len()) + decimal(n)
}

/// Decimal form of a signed integer, `-` first when negative.
pub open spec fn signed_decimal(v: int) -> Seq<char> {
    if v < 0 { seq!['-'] + decimal((-v) as nat) } else { decimal(v as nat) }
}

/// Signed decimal padded with zeros after the sign to at least `width`
/// characters in all (the sign counts toward the width).
pub open spec fn signed_padded(v: int, width: int) -> Seq<char> {
    if v < 0 {
        seq!['-'] + padded_decimal((-v) as nat, width - 1)
    } else {
        padded_decimal(v as nat, width)
    }
}

fn digit_str(d: u64) -> (r: &'static str)
    requires
        d < 10,
    ensures
        r@ == seq![digit_char(d as int)],
{
    proof {
        reveal_strlit("0");
        reveal_strlit("1");
        reveal_strlit("2");
        reveal_strlit("3");
        reveal_strlit("4");
        reveal_strlit("5");
        reveal_strlit("6");
        reveal_strlit("7");
        reveal_strlit("8");
        reveal_strlit("9");
    }
    if d == 0 { "0" } else if d == 1 { "1" } else if d == 2 { "2" } else if d == 3 { "3" }
    else if d == 4 { "4" } else if d == 5 { "5" } else if d == 6 { "6" } else if d == 7 { "7" }
    else if d == 8 { "8" } else { "9" }
}

/// Appends the decimal form of `n`.
pub fn push_decimal(out: &mut String, n: u64)
    ensures
        final(out)@ == old(out)@ + decimal(n as nat),
    decreases n,
{
    if n < 10 {
        out.append(digit_str(n));
    } else {
        push_decimal(out, n / 10);
        out.append(digit_str(n % 10));
        proof {
            assert(old(out)@ + decimal((n / 10) as nat) + seq![digit_char((n % 10) as int)]
                =~= old(out)@ + decimal(n as nat));
        }
    }
}

/// Number of decimal digits of `n`.
fn decimal_len(n: u64) -> (r: u64)
    ensures
        r == decimal(n as nat).len(),
        1 <= r <= 20,
    decreases n,
{
    if n < 10 {
        1
    } else {
        let k = decimal_len(n / 10);
        proof {
            lemma_decimal_len_bound(n as nat);
        }
        k + 1
    }
}

proof fn lemma_decimal_len_bound(n: nat)
    requires
        n <= u64::MAX,
    ensures
        1 <= decimal(n).len() <= 20,
{
    assert(pow10(20) == 100000000000000000000) by {
        reveal_with_fuel(pow10, 21);
    }
    lemma_decimal_len_small_k(n, 20);
    lemma_decimal_nonempty(n);
}

proof fn lemma_decimal_nonempty(n: nat)
    ensures
        decimal(n).len() >= 1,
    decreases n,
{
    if n >= 10 {
        lemma_decimal_nonempty(n / 10);
    }
}

proof fn lemma_decimal_len_small_k(n: nat, k: nat)
    requires
        k >= 1,
        n < pow10(k),
    ensures
        decimal(n).len() <= k,
    decreases n,
{
    if n >= 10 {
        assert(k >= 2) by {
            if k < 2 {
                assert(pow10(1) == 10) by {
                    reveal_with_fuel(pow10, 2);
                }
            }
        }
        assert(pow10(k) == 10 * pow10((k - 1) as nat));
        assert(n / 10 < pow10((k - 1) as nat));
        lemma_decimal_len_small_k(n / 10, (k - 1) as nat);
    }
}

spec fn pow10(k: nat) -> nat
    decreases k,
{
    if k == 0 { 1 } else { 10 * pow10((k - 1) as nat) }
}

/// Appends the decimal form of `n`, left-padded with zeros to `width`.
pub fn push_padded(out: &mut String, n: u64, width: u64)
    requires
        width <= 64,
    ensures
        final(out)@ == old(out)@ + padded_decimal(n as nat, width as int),
{
    let len = decimal_len(n);
    let mut i: u64 = len;
    let ghost start = out@;
    while i < width
        invariant
            len == decimal(n as nat).len(),
            len <= i,
            i <= width || i == len,
            width <= 64,
            out@ == start + zeros(i - len),
        decreases width - i,
    {
        out.append("0");
        proof {
            reveal_strlit("0");
            assert(start + zeros(i - len) + seq!['0'] =~= start + zeros(i + 1 - len));
        }
        i = i + 1;
    }
    proof {
        assert(zeros(i - len) =~= zeros(width - len));
    }
    push_decimal(out, n);
    proof {
        assert(start + zeros(width - len) + decimal(n as nat)
            =~= start + padded_decimal(n as nat, width as int));
    }
}

/// Appends the decimal form of a signed integer.
pub fn push_signed(out: &mut String, v: i64)
    ensures
        final(out)@ == old(out)@ + signed_decimal(v as int),
{
    if v < 0 {
        out.append("-");
        proof { reveal_strlit("-"); }
        let mag: u64 = if v == i64::MIN { 9223372036854775808u64 } else { (-v) as u64 };
        push_decimal(out, mag);
        proof {
            assert(old(out)@ + seq!['-'] + decimal(mag as nat) =~= old(out)@ + signed_decimal(v as int));
        }
    } else {
        push_decimal(out, v as u64);
    }
}

/// Appends a signed integer with zero padding after the sign to `width`.
pub fn push_signed_padded(out: &mut String, v: i64, width: u64)
    requires
        1 <= width <= 64,
    ensures
        final(out)@ == old(out)@ + signed_padded(v as int, width as int),
{
    if v < 0 {
        out.append("-");
        proof { reveal_strlit("-"); }
        let mag: u64 = if v == i64::MIN { 9223372036854775808u64 } else { (-v) as u64 };
        push_padded(out, mag, width - 1);
        proof {
            assert(old(out)@ + seq!['-'] + padded_decimal(mag as nat, width - 1)
                =~= old(out)@ + signed_padded(v as int, width as int));
        }
    } else {
        push_padded(out, v as u64, width);
    }
}

} // verus!
