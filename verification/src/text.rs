//! Building the texts of messages.

use vstd::prelude::*;

verus! {

/// The character of a decimal digit.
pub open spec fn digit(d: nat) -> char
    recommends
        d < 10,
{
    (48 + d) as char
}

/// The decimal numeral of `n`, without leading zeros.
pub open spec fn decimal(n: nat) -> Seq<char>
    decreases n,
{
    if n < 10 {
        seq![digit(n)]
    } else {
        decimal(n / 10).push(digit(n % 10))
    }
}

/// Appends one character.
///
/// Trusted: `String::push` appends the character to the end of the string.
#[verifier::external_body]
pub(crate) fn push_char(s: &mut String, c: char)
    ensures
        final(s)@ == old(s)@.push(c),
{
    s.push(c);
}

/// Appends the decimal numeral of `n`.
pub fn push_decimal(out: &mut String, n: u32)
    ensures
        final(out)@ == old(out)@ + decimal(n as nat),
    decreases n,
{
    if n >= 10 {
        push_decimal(out, n / 10);
    }
    let d: u8 = (n % 10) as u8;
    push_char(out, (48 + d) as char);
    proof {
        if n >= 10 {
            assert(old(out)@ + decimal(n as nat / 10).push(digit(n as nat % 10)) == (old(out)@
                + decimal(n as nat / 10)).push(digit(n as nat % 10)));
        } else {
            assert(old(out)@ + seq![digit(n as nat)] == old(out)@.push(digit(n as nat)));
        }
    }
}

} // verus!
