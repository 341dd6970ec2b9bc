//! The page's self-test: adding two numbers and reporting the sum.
use vstd::prelude::*;
use crate::strings::{push_str, string_push};

verus! {

/// Decimal digits of `n`, most significant first.
pub open spec fn decimal_chars(n: nat) -> Seq<char>
    decreases n,
{
    if n < 10 {
        seq![((48 + n) as u32) as char]
    } else {
        decimal_chars(n / 10).push(((48 + n % 10) as u32) as char)
    }
}

/// `n` in decimal, with a leading `'-'` when negative.
pub open spec fn signed_decimal(n: int) -> Seq<char> {
    if n < 0 {
        seq!['-'] + decimal_chars((-n) as nat)
    } else {
        decimal_chars(n as nat)
    }
}

fn digit_char(d: u64) -> (c: char)
    requires
        d < 10,
    ensures
        c == ((48 + d) as u32) as char,
{
    match d {
        0 => '0',
        1 => '1',
        2 => '2',
        3 => '3',
        4 => '4',
        5 => '5',
        6 => '6',
        7 => '7',
        8 => '8',
        _ => '9',
    }
}

/// Appends the decimal digits of `n` to `s`.
pub fn push_decimal_chars(s: &mut String, n: u64)
    ensures
        final(s)@ == old(s)@ + decimal_chars(n as nat),
    decreases n,
{
    if n >= 10 {
        push_decimal_chars(s, n / 10);
    }
    string_push(s, digit_char(n % 10));
    assert(final(s)@ =~= old(s)@ + decimal_chars(n as nat)) by {
        if n >= 10 {
            assert(old(s)@ + decimal_chars(n as nat) =~= old(s)@ + decimal_chars((n / 10) as nat)
                + seq![((48 + n % 10) as u32) as char]);
        }
    }
}

/// The sum of `a` and `b`, as the page shows it.
pub fn add(a: i32, b: i32) -> (r: String)
    requires
        i32::MIN <= a + b <= i32::MAX,
    ensures
        r@ == "Add results: "@ + signed_decimal(a + b),
{
    let sum = a + b;
    let mut r = String::new();
    push_str(&mut r, "Add results: ");
    if sum < 0 {
        string_push(&mut r, '-');
        let mag: u64 = (0i64 - sum as i64) as u64;
        push_decimal_chars(&mut r, mag);
        assert(r@ =~= "Add results: "@ + signed_decimal(a + b));
    } else {
        push_decimal_chars(&mut r, sum as u64);
    }
    r
}

} // verus!
