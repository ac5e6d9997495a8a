//! Decimal formatting for the chip amounts the table narrates.

use vstd::prelude::*;
use crate::cards::push_char;

verus! {

/// The digit character of a value below ten.
pub open spec fn digit_char(d: int) -> char {
    if d == 0 {
        '0'
    } else if d == 1 {
        '1'
    } else if d == 2 {
        '2'
    } else if d == 3 {
        '3'
    } else if d == 4 {
        '4'
    } else if d == 5 {
        '5'
    } else if d == 6 {
        '6'
    } else if d == 7 {
        '7'
    } else if d == 8 {
        '8'
    } else {
        '9'
    }
}

/// The decimal digits of a non-negative number, most significant
/// first, with no leading zero except for zero itself.
pub open spec fn decimal_digits(n: int) -> Seq<char>
    decreases n,
{
    if n < 10 {
        seq![digit_char(n)]
    } else {
        decimal_digits(n / 10).push(digit_char(n % 10))
    }
}

fn digit(d: u32) -> (c: char)
    requires
        d < 10,
    ensures
        c == digit_char(d as int),
{
    if d == 0 {
        '0'
    } else if d == 1 {
        '1'
    } else if d == 2 {
        '2'
    } else if d == 3 {
        '3'
    } else if d == 4 {
        '4'
    } else if d == 5 {
        '5'
    } else if d == 6 {
        '6'
    } else if d == 7 {
        '7'
    } else if d == 8 {
        '8'
    } else {
        '9'
    }
}

/// Whether two strings hold the same characters.
pub fn str_eq(a: &str, b: &str) -> (r: bool)
    ensures
        r == (a@ == b@),
{
    let na = a.unicode_len();
    let nb = b.unicode_len();
    if na != nb {
        return false;
    }
    let mut i: usize = 0;
    while i < na
        invariant
            i <= na,
            na == a@.len(),
            nb == b@.len(),
            na == nb,
            forall|k: int| 0 <= k < i ==> a@[k] == b@[k],
        decreases na - i,
    {
        if a.get_char(i) != b.get_char(i) {
            return false;
        }
        i += 1;
    }
    proof {
        assert(a@ =~= b@);
    }
    true
}

/// Writes a number in decimal.
pub fn u32_string(n: u32) -> (r: String)
    ensures
        r@ == decimal_digits(n as int),
{
    let mut rev: Vec<char> = Vec::new();
    let mut m = n;
    proof {
        assert(decimal_digits(n as int) =~= decimal_digits(m as int) + rev@.reverse());
    }
    while m >= 10
        invariant
            decimal_digits(n as int) == decimal_digits(m as int) + rev@.reverse(),
        decreases m,
    {
        let ghost rev0 = rev@;
        let d = m % 10;
        rev.push(digit(d));
        proof {
            assert(rev@.reverse() =~= seq![digit_char(d as int)] + rev0.reverse());
            assert(decimal_digits(m as int) == decimal_digits(m as int / 10).push(
                digit_char(m as int % 10),
            ));
            assert(decimal_digits(m as int / 10).push(digit_char(d as int)) =~= decimal_digits(
                m as int / 10,
            ) + seq![digit_char(d as int)]);
            assert(decimal_digits(n as int) =~= decimal_digits(m as int / 10) + rev@.reverse());
        }
        m = m / 10;
    }
    let ghost rev1 = rev@;
    rev.push(digit(m));
    proof {
        assert(rev@.reverse() =~= seq![digit_char(m as int)] + rev1.reverse());
        assert(decimal_digits(n as int) =~= rev@.reverse());
    }
    let mut s = String::new();
    let len = rev.len();
    let mut i: usize = 0;
    while i < len
        invariant
            i <= len,
            len == rev@.len(),
            decimal_digits(n as int) == rev@.reverse(),
            s@ == rev@.reverse().take(i as int),
        decreases len - i,
    {
        let c = rev[len - 1 - i];
        push_char(&mut s, c);
        proof {
            assert(rev@.reverse()[i as int] == rev@[len - 1 - i]);
            assert(s@ =~= rev@.reverse().take(i + 1));
        }
        i += 1;
    }
    proof {
        assert(rev@.reverse().take(len as int) =~= rev@.reverse());
    }
    s
}

} // verus!
