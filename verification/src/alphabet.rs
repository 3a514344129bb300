//! Character classes and the two alphabets substitutes are drawn from.

use vstd::prelude::*;

verus! {

/// What the standard library answers when asked whether `c` is alphanumeric:
/// whether Unicode classifies it as alphabetic or numeric.
pub uninterp spec fn alphanumeric(c: char) -> bool;

/// An ASCII letter or an ASCII decimal digit.
pub open spec fn ascii_alphanumeric(c: char) -> bool {
    ascii_letter(c) || decimal_digit(c)
}

/// Whether `c` is part of a word: within ASCII the letters and the decimal
/// digits are, beyond ASCII whatever is alphanumeric. Every other character
/// is a separator.
pub open spec fn word_char(c: char) -> bool {
    if (c as u32) < 128 {
        ascii_alphanumeric(c)
    } else {
        alphanumeric(c)
    }
}

/// `char::is_alphanumeric` of the standard library: true for the characters
/// Unicode classifies as alphabetic or numeric. Within ASCII these are the
/// letters and the decimal digits, and nothing else.
pub assume_specification[ char::is_alphanumeric ](c: char) -> (b: bool)
    ensures
        b == word_char(c),
        (c as u32) >= 128 ==> b == alphanumeric(c),
;

/// One of the ten characters `0` to `9`.
pub open spec fn decimal_digit(c: char) -> bool {
    '0' <= c <= '9'
}

/// One of the 52 characters `a` to `z` and `A` to `Z`.
pub open spec fn ascii_letter(c: char) -> bool {
    ('a' <= c <= 'z') || ('A' <= c <= 'Z')
}

/// What the standard library answers when asked whether `c` is numeric:
/// whether Unicode classifies it as a number of some kind.
pub uninterp spec fn numeric(c: char) -> bool;

/// Whether `c` is part of a number: within ASCII the decimal digits are,
/// beyond ASCII whatever is numeric.
pub open spec fn number_char(c: char) -> bool {
    if (c as u32) < 128 {
        decimal_digit(c)
    } else {
        numeric(c)
    }
}

/// `char::is_numeric` of the standard library: true for the characters in
/// one of Unicode's general categories for numbers. Within ASCII these are
/// the decimal digits, and nothing else.
pub assume_specification[ char::is_numeric ](c: char) -> (b: bool)
    ensures
        b == number_char(c),
        (c as u32) >= 128 ==> b == numeric(c),
;

/// The alphabet synthetic words are made of: `a` to `z`, then `A` to `Z`.
pub open spec fn letters() -> Seq<char> {
    Seq::new(
        52,
        |i: int|
            if i < 26 {
                ('a' as int + i) as char
            } else {
                ('A' as int + (i - 26)) as char
            },
    )
}

/// The alphabet numbers are replaced from: `0` to `9`.
pub open spec fn digits() -> Seq<char> {
    Seq::new(10, |i: int| ('0' as int + i) as char)
}

/// The alphabet of letters holds the 52 ASCII letters and nothing else.
pub proof fn lemma_letters()
    ensures
        letters().len() == 52,
        forall|c: char| letters().contains(c) <==> ascii_letter(c),
{
    assert forall|c: char| ascii_letter(c) implies letters().contains(c) by {
        if 'a' <= c <= 'z' {
            let i = c as int - 'a' as int;
            assert(letters()[i] == c);
        } else {
            let i = c as int - 'A' as int + 26;
            assert(letters()[i] == c);
        }
    }
}

/// The alphabet of digits holds the ten decimal digits and nothing else.
pub proof fn lemma_digits()
    ensures
        digits().len() == 10,
        forall|c: char| digits().contains(c) <==> decimal_digit(c),
{
    assert forall|c: char| decimal_digit(c) implies digits().contains(c) by {
        let i = c as int - '0' as int;
        assert(digits()[i] == c);
    }
}

/// Appends the `count` characters that follow each other from `first` on.
fn push_span(table: &mut Vec<char>, first: char, count: u8)
    requires
        first as int + count <= 128,
    ensures
        final(table)@ == old(table)@ + Seq::new(count as nat, |i: int| (first as int + i) as char),
{
    let start: u8 = first as u8;
    let mut k: u8 = 0;
    while k < count
        invariant
            k <= count,
            start == first as int,
            start + count <= 128,
            table@ == old(table)@ + Seq::new(k as nat, |i: int| (first as int + i) as char),
        decreases count - k,
    {
        table.push((start + k) as char);
        proof {
            assert(table@ =~= old(table)@ + Seq::new(
                (k + 1) as nat,
                |i: int| (first as int + i) as char,
            ));
        }
        k += 1;
    }
}

/// The alphabet of letters, as a table to draw from.
pub fn letter_table() -> (table: Vec<char>)
    ensures
        table@ == letters(),
{
    let mut table: Vec<char> = Vec::new();
    push_span(&mut table, 'a', 26);
    push_span(&mut table, 'A', 26);
    table
}

/// The alphabet of digits, as a table to draw from.
pub fn digit_table() -> (table: Vec<char>)
    ensures
        table@ == digits(),
{
    let mut table: Vec<char> = Vec::new();
    push_span(&mut table, '0', 10);
    table
}

} // verus!
