//! The names of the files a campaign keeps its corpus in between runs: one file per entry,
//! numbered in the order the entries were admitted, so that a later campaign takes them back
//! in that order and numbers its own after them.
use vstd::prelude::*;

use crate::libraries::chars_of;
use crate::text::{decimal, decimal_u64, digit, push_char};

verus! {

/// What a corpus file's name ends with.
pub open spec fn entry_suffix() -> Seq<char> {
    seq!['.', 'p', 'r', 'o', 'g', 'r', 'a', 'm']
}

/// How many digits a corpus file's number is padded to.
pub const ENTRY_DIGITS: usize = 6;

/// `n` zeros.
pub open spec fn zeros(n: nat) -> Seq<char> {
    Seq::new(n, |i: int| '0')
}

/// `n` in decimal, padded with zeros to at least `width` digits.
pub open spec fn padded(n: nat, width: nat) -> Seq<char> {
    let d = decimal(n);
    if d.len() >= width {
        d
    } else {
        zeros((width - d.len()) as nat) + d
    }
}

/// The name of the file that holds the corpus entry numbered `n`.
pub open spec fn entry_file_name(n: nat) -> Seq<char> {
    padded(n, ENTRY_DIGITS as nat) + entry_suffix()
}

/// Whether `c` is a decimal digit.
pub open spec fn is_digit(c: char) -> bool {
    48 <= (c as int) <= 57
}

/// What a decimal digit stands for.
pub open spec fn digit_value(c: char) -> nat {
    if is_digit(c) {
        (c as int - 48) as nat
    } else {
        0
    }
}

/// The number the digits of `s` stand for, most significant first.
pub open spec fn digits_value(s: Seq<char>) -> nat
    decreases s.len(),
{
    if s.len() == 0 {
        0
    } else {
        digits_value(s.drop_last()) * 10 + digit_value(s.last())
    }
}

/// Whether every character of `s` is a decimal digit.
pub open spec fn all_digits(s: Seq<char>) -> bool {
    forall|i: int| 0 <= i < s.len() ==> is_digit(#[trigger] s[i])
}

/// What `usize::from_str` makes of `s`: an optional `+`, then one or more decimal digits,
/// whose value fits in a `usize`; anything else is an error.
pub open spec fn parsed_number(s: Seq<char>) -> Option<nat> {
    let body = if s.len() > 0 && s[0] == '+' {
        s.drop_first()
    } else {
        s
    };
    if body.len() > 0 && all_digits(body) && digits_value(body) <= usize::MAX {
        Some(digits_value(body))
    } else {
        None
    }
}

/// The number of the corpus entry a file named `name` holds: a number followed by the
/// suffix, or none for a file that is not a corpus entry.
pub open spec fn entry_number_of(name: Seq<char>) -> Option<nat> {
    let cut = name.len() - entry_suffix().len();
    if cut >= 0 && name.subrange(cut, name.len() as int) == entry_suffix() {
        parsed_number(name.subrange(0, cut))
    } else {
        None
    }
}

proof fn lemma_digit_is_digit(d: nat)
    requires
        d < 10,
    ensures
        is_digit(digit(d)),
        digit_value(digit(d)) == d,
        digit(d) != '+',
{
}

proof fn lemma_decimal_digits(n: nat)
    ensures
        decimal(n).len() >= 1,
        all_digits(decimal(n)),
        digits_value(decimal(n)) == n,
    decreases n,
{
    if n < 10 {
        lemma_digit_is_digit(n);
        assert(decimal(n).drop_last() =~= Seq::<char>::empty());
        assert(digits_value(Seq::<char>::empty()) == 0);
        assert(decimal(n).last() == digit(n));
        assert(digits_value(decimal(n)) == n);
    } else {
        lemma_decimal_digits(n / 10);
        lemma_digit_is_digit(n % 10);
        let d = decimal(n);
        assert(d.drop_last() =~= decimal(n / 10));
        assert(d.last() == digit(n % 10));
        assert((n / 10) * 10 + n % 10 == n) by (nonlinear_arith);
        assert(digits_value(d) == digits_value(decimal(n / 10)) * 10 + digit_value(digit(n % 10)));
        assert(digits_value(d) == n);
        assert forall|i: int| 0 <= i < d.len() implies is_digit(#[trigger] d[i]) by {
            if i < d.len() - 1 {
                assert(d[i] == decimal(n / 10)[i]);
            }
        }
    }
}

/// Leading zeros do not change the value.
proof fn lemma_zeros_ahead(z: nat, s: Seq<char>)
    ensures
        digits_value(zeros(z) + s) == digits_value(s),
        all_digits(s) ==> all_digits(zeros(z) + s),
    decreases s.len(),
{
    if s.len() == 0 {
        assert(zeros(z) + s =~= zeros(z));
        lemma_zeros_value(z);
    } else {
        lemma_zeros_ahead(z, s.drop_last());
        assert((zeros(z) + s).drop_last() =~= zeros(z) + s.drop_last());
        assert((zeros(z) + s).last() == s.last());
    }
    if all_digits(s) {
        assert forall|i: int| 0 <= i < (zeros(z) + s).len() implies is_digit(#[trigger] (zeros(z) + s)[i]) by {
            if i < z {
                assert((zeros(z) + s)[i] == '0');
            } else {
                assert((zeros(z) + s)[i] == s[i - z]);
            }
        }
    }
}

proof fn lemma_zeros_value(z: nat)
    ensures
        digits_value(zeros(z)) == 0,
    decreases z,
{
    if z > 0 {
        lemma_zeros_value((z - 1) as nat);
        assert(zeros(z).drop_last() =~= zeros((z - 1) as nat));
    }
}

/// A prefix of a number's digits stands for no more than the number.
proof fn lemma_prefix_value(s: Seq<char>, k: int)
    requires
        0 <= k <= s.len(),
    ensures
        digits_value(s.subrange(0, k)) <= digits_value(s),
    decreases s.len(),
{
    if k < s.len() {
        lemma_prefix_value(s.drop_last(), k);
        assert(s.drop_last().subrange(0, k) =~= s.subrange(0, k));
    } else {
        assert(s.subrange(0, k) =~= s);
    }
}

/// A file name gives back the number it was made from: a later campaign takes back every
/// entry an earlier one saved, under the number it saved it with.
pub proof fn lemma_entry_file_round_trip(n: nat)
    requires
        n <= usize::MAX,
    ensures
        entry_number_of(entry_file_name(n)) == Some(n),
{
    let d = decimal(n);
    lemma_decimal_digits(n);
    let p = padded(n, ENTRY_DIGITS as nat);
    if d.len() < ENTRY_DIGITS {
        let z = (ENTRY_DIGITS - d.len()) as nat;
        lemma_zeros_ahead(z, d);
        assert(p[0] == '0');
    } else {
        assert(p[0] == d[0]);
        assert(is_digit(d[0]));
    }
    assert(all_digits(p));
    assert(digits_value(p) == n);
    let name = entry_file_name(n);
    let cut = name.len() - entry_suffix().len();
    assert(name.subrange(cut, name.len() as int) =~= entry_suffix());
    assert(name.subrange(0, cut) =~= p);
}

/// The name of the file that holds the corpus entry numbered `n`.
pub fn entry_file(n: usize) -> (name: String)
    ensures
        name@ == entry_file_name(n as nat),
{
    let digits = decimal_u64(n as u64);
    let digits_chars = chars_of(digits.as_str());
    let mut name = String::new();
    let mut k: usize = digits_chars.len();
    while k < ENTRY_DIGITS
        invariant
            digits_chars@ == decimal(n as nat),
            digits_chars@.len() <= k <= ENTRY_DIGITS || (k == digits_chars@.len() && k >= ENTRY_DIGITS),
            name@ == zeros((k - digits_chars@.len()) as nat),
        decreases ENTRY_DIGITS - k,
    {
        push_char(&mut name, '0');
        k = k + 1;
        assert(name@ =~= zeros((k - digits_chars@.len()) as nat));
    }
    let ghost pad = name@;
    let mut i: usize = 0;
    while i < digits_chars.len()
        invariant
            i <= digits_chars@.len(),
            name@ == pad + digits_chars@.subrange(0, i as int),
        decreases digits_chars@.len() - i,
    {
        push_char(&mut name, digits_chars[i]);
        i = i + 1;
        assert(name@ =~= pad + digits_chars@.subrange(0, i as int));
    }
    assert(digits_chars@.subrange(0, digits_chars@.len() as int) =~= digits_chars@);
    assert(name@ =~= padded(n as nat, ENTRY_DIGITS as nat)) by {
        if digits_chars@.len() >= ENTRY_DIGITS {
            assert(pad =~= Seq::<char>::empty());
        }
    }
    let suffix: Vec<char> = vec!['.', 'p', 'r', 'o', 'g', 'r', 'a', 'm'];
    let ghost base = name@;
    let mut j: usize = 0;
    while j < suffix.len()
        invariant
            j <= suffix@.len(),
            suffix@ == entry_suffix(),
            name@ == base + suffix@.subrange(0, j as int),
        decreases suffix@.len() - j,
    {
        push_char(&mut name, suffix[j]);
        j = j + 1;
        assert(name@ =~= base + suffix@.subrange(0, j as int));
    }
    assert(suffix@.subrange(0, suffix@.len() as int) =~= entry_suffix());
    name
}

/// The number of the corpus entry in the file named `name`, or none for a file that is not a
/// corpus entry.
pub fn entry_number(name: &str) -> (r: Option<usize>)
    ensures
        r matches Some(k) ==> entry_number_of(name@) == Some(k as nat),
        r is None ==> entry_number_of(name@) is None,
{
    let chars = chars_of(name);
    let suffix: Vec<char> = vec!['.', 'p', 'r', 'o', 'g', 'r', 'a', 'm'];
    assert(suffix@ == entry_suffix());
    if chars.len() < suffix.len() {
        return None;
    }
    let cut = chars.len() - suffix.len();
    let mut i: usize = 0;
    while i < suffix.len()
        invariant
            i <= suffix@.len(),
            suffix@ == entry_suffix(),
            chars@ == name@,
            cut + suffix@.len() == chars@.len(),
            chars@.len() <= usize::MAX,
            forall|k: int| 0 <= k < i ==> chars@[cut + k] == suffix@[k],
        decreases suffix@.len() - i,
    {
        if chars[cut + i] != suffix[i] {
            assert(name@.subrange(cut as int, name@.len() as int)[i as int] != entry_suffix()[i as int]);
            return None;
        }
        i = i + 1;
    }
    assert(name@.subrange(cut as int, name@.len() as int) =~= entry_suffix());
    let ghost s = name@.subrange(0, cut as int);
    let start: usize = if cut > 0 && chars[0] == '+' { 1 } else { 0 };
    let ghost body = s.subrange(start as int, s.len() as int);
    assert(body =~= (if s.len() > 0 && s[0] == '+' { s.drop_first() } else { s }));
    if start == cut {
        return None;
    }
    let mut value: usize = 0;
    let mut j: usize = start;
    while j < cut
        invariant
            start <= j <= cut,
            cut < chars@.len(),
            chars@ == name@,
            s == name@.subrange(0, cut as int),
            body == s.subrange(start as int, s.len() as int),
            body == (if s.len() > 0 && s[0] == '+' { s.drop_first() } else { s }),
            name@.subrange(cut as int, name@.len() as int) == entry_suffix(),
            cut + entry_suffix().len() == name@.len(),
            all_digits(s.subrange(start as int, j as int)),
            value == digits_value(s.subrange(start as int, j as int)),
        decreases cut - j,
    {
        let c = chars[j];
        assert(c == s[j as int]);
        if !('0' <= c && c <= '9') {
            assert(body[j - start] == c);
            assert(!is_digit(body[j - start]));
            return None;
        }
        let d = (c as u32 - 48) as usize;
        let next: u128 = value as u128 * 10 + d as u128;
        let ghost prefix = s.subrange(start as int, j + 1);
        assert(prefix.drop_last() =~= s.subrange(start as int, j as int));
        assert(prefix.last() == c);
        assert(digits_value(prefix) == next);
        if next > usize::MAX as u128 {
            proof {
                assert(prefix =~= body.subrange(0, j + 1 - start));
                lemma_prefix_value(body, j + 1 - start);
            }
            return None;
        }
        value = next as usize;
        j = j + 1;
        assert forall|k: int| 0 <= k < prefix.len() implies is_digit(#[trigger] prefix[k]) by {
            if k < prefix.len() - 1 {
                assert(prefix[k] == s.subrange(start as int, (j - 1) as int)[k]);
            }
        }
    }
    assert(s.subrange(start as int, cut as int) =~= body);
    Some(value)
}

} // verus!
