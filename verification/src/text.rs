//! Building strings a character at a time, and numbers written out in decimal.
use vstd::prelude::*;

verus! {

/// `String::push`: the string with one more character at its end.
#[verifier::external_body]
pub(crate) fn push_char(s: &mut String, c: char)
    ensures
        final(s)@ == old(s)@.push(c),
{
    s.push(c)
}

/// The decimal digit for a number below ten.
pub open spec fn digit(d: nat) -> char {
    (48 + d) as char
}

/// A number in decimal, without leading zeros.
pub open spec fn decimal(n: nat) -> Seq<char>
    decreases n,
{
    if n < 10 {
        seq![digit(n)]
    } else {
        decimal(n / 10) + seq![digit(n % 10)]
    }
}

/// The number in decimal, as `u64::to_string` writes it.
pub(crate) fn decimal_u64(n: u64) -> (s: String)
    ensures
        s@ == decimal(n as nat),
    decreases n,
{
    let d = (n % 10) as u8;
    let c = (48u8 + d) as char;
    assert(c == digit((n % 10) as nat));
    if n < 10 {
        let mut s = String::new();
        push_char(&mut s, c);
        assert(s@ =~= seq![digit(n as nat)]);
        s
    } else {
        let mut s = decimal_u64(n / 10);
        push_char(&mut s, c);
        s
    }
}

} // verus!
