//! Decimal text of an octet: how a number in `0..=255` is written and read.
//!
//! An octet is read the way `u8` is read from a string: an optional plus
//! sign, then at least one decimal digit, the whole not above 255. Leading
//! zeros are accepted. It is written in the shortest form, without sign.

use vstd::prelude::*;
use vstd::string::*;

verus! {

/// Whether `c` is one of the ten ASCII decimal digits.
pub open spec fn is_digit(c: char) -> bool {
    '0' <= c && c <= '9'
}

/// The number that the digit `c` stands for.
pub open spec fn digit_value(c: char) -> nat
    recommends
        is_digit(c),
{
    (c as int - '0' as int) as nat
}

/// The digit that stands for `d`.
pub open spec fn digit_char(d: nat) -> char
    recommends
        d < 10,
{
    ('0' as nat + d) as char
}

/// Whether every character of `ds` is a decimal digit.
pub open spec fn all_digits(ds: Seq<char>) -> bool {
    forall|i: int| 0 <= i < ds.len() ==> is_digit(#[trigger] ds[i])
}

/// The number written by the digits `ds`, most significant first.
pub open spec fn decimal_value(ds: Seq<char>) -> nat
    decreases ds.len(),
{
    if ds.len() == 0 {
        0
    } else {
        10 * decimal_value(ds.drop_last()) + digit_value(ds.last())
    }
}

/// The shortest decimal writing of `n`.
pub open spec fn decimal_text(n: nat) -> Seq<char>
    decreases n,
{
    if n < 10 {
        seq![digit_char(n)]
    } else {
        decimal_text(n / 10).push(digit_char(n % 10))
    }
}

/// What is left of `text` once one leading plus sign, if any, is taken off.
pub open spec fn unsigned_part(text: Seq<char>) -> Seq<char> {
    if text.len() > 0 && text[0] == '+' {
        text.skip(1)
    } else {
        text
    }
}

/// The octet that `text` writes, if it writes one.
pub open spec fn octet_value(text: Seq<char>) -> Option<u8> {
    let ds = unsigned_part(text);
    if ds.len() > 0 && all_digits(ds) && decimal_value(ds) <= 255 {
        Some(decimal_value(ds) as u8)
    } else {
        None
    }
}

/// The text of the octet `n`.
pub open spec fn octet_text(n: u8) -> Seq<char> {
    decimal_text(n as nat)
}

/// A run of digits is worth at least as much as any of its prefixes.
pub proof fn lemma_decimal_value_prefix(ds: Seq<char>, k: int)
    requires
        0 <= k <= ds.len(),
    ensures
        decimal_value(ds.take(k)) <= decimal_value(ds),
    decreases ds.len(),
{
    if k == ds.len() {
        assert(ds.take(k) =~= ds);
    } else {
        assert(ds.drop_last().take(k) =~= ds.take(k));
        lemma_decimal_value_prefix(ds.drop_last(), k);
    }
}

/// Reading back the shortest writing of a number gives the number; the
/// writing is made of digits only and is never empty.
pub proof fn lemma_decimal_round_trip(n: nat)
    ensures
        decimal_text(n).len() >= 1,
        all_digits(decimal_text(n)),
        decimal_value(decimal_text(n)) == n,
    decreases n,
{
    if n < 10 {
        let t = decimal_text(n);
        assert(decimal_value(t.drop_last()) == 0);
    } else {
        lemma_decimal_round_trip(n / 10);
        let t = decimal_text(n);
        assert(t.drop_last() =~= decimal_text(n / 10));
    }
}

/// The text of an octet has one to three characters, all of them digits,
/// and reads back as that octet.
pub proof fn lemma_octet_round_trip(n: u8)
    ensures
        1 <= octet_text(n).len() <= 3,
        all_digits(octet_text(n)),
        octet_value(octet_text(n)) == Some(n),
{
    lemma_decimal_round_trip(n as nat);
    reveal_with_fuel(decimal_text, 3);
}

/// Reads one character as a decimal digit.
pub fn read_digit(c: char) -> (r: Option<u8>)
    ensures
        r is Some <==> is_digit(c),
        r matches Some(d) ==> d as nat == digit_value(c) && d < 10,
{
    if '0' <= c && c <= '9' {
        let code: u32 = c as u32;
        Some((code - 48) as u8)
    } else {
        None
    }
}

/// Reads `text` as an octet: `None` unless it is an optional plus sign
/// followed by one or more digits that write a number not above 255.
pub fn parse_octet(text: &Vec<char>) -> (r: Option<u8>)
    ensures
        r == octet_value(text@),
{
    let n: usize = text.len();
    let start: usize = if n > 0 && text[0] == '+' {
        1
    } else {
        0
    };
    if start == n {
        return None;
    }
    let ghost ds = unsigned_part(text@);
    let mut value: u16 = 0;
    let mut i: usize = start;
    while i < n
        invariant
            start <= i <= n,
            n == text@.len(),
            start <= 1,
            ds == unsigned_part(text@),
            ds == text@.skip(start as int),
            all_digits(ds.take(i - start)),
            value == decimal_value(ds.take(i - start)),
            value <= 255,
        decreases n - i,
    {
        let ghost seen = ds.take(i - start);
        let ghost more = ds.take(i - start + 1);
        proof {
            assert(more.drop_last() =~= seen);
            assert(more.last() == text@[i as int]);
        }
        match read_digit(text[i]) {
            None => {
                return None;
            },
            Some(d) => {
                let next: u16 = value * 10 + d as u16;
                if next > 255 {
                    proof {
                        lemma_decimal_value_prefix(ds, i - start + 1);
                    }
                    return None;
                }
                value = next;
            },
        }
        i += 1;
    }
    assert(ds.take(n - start) =~= ds);
    Some(value as u8)
}

/// The one-character string of the digit `d`.
fn digit_str(d: u8) -> (r: &'static str)
    requires
        d < 10,
    ensures
        r@ == seq![digit_char(d as nat)],
{
    proof {
        reveal_strlit("0");
        reveal_strlit("1");
        reveal_strlit("2");
        reveal_strlit("3");
        reveal_strlit("4");
        reveal_strlit("5");
        reveal_strlit("6");
        reveal_strlit("7");
        reveal_strlit("8");
        reveal_strlit("9");
    }
    match d {
        0 => "0",
        1 => "1",
        2 => "2",
        3 => "3",
        4 => "4",
        5 => "5",
        6 => "6",
        7 => "7",
        8 => "8",
        _ => "9",
    }
}

/// Appends the shortest decimal writing of `n` to `out`.
pub fn push_octet(out: &mut String, n: u8)
    ensures
        final(out)@ == old(out)@ + octet_text(n),
{
    reveal_with_fuel(decimal_text, 3);
    if n >= 100 {
        out.append(digit_str(n / 100));
    }
    if n >= 10 {
        out.append(digit_str((n / 10) % 10));
    }
    out.append(digit_str(n % 10));
}

} // verus!
