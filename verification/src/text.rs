//! Decimal and hexadecimal rendering of numbers, and writing text to a formatter.
use crate::effect;
use core::fmt::Formatter;
use vstd::prelude::*;
use vstd::string::*;

verus! {

/// `core::fmt::Formatter`: where a formatting macro has its text written to.
#[verifier::external_type_specification]
#[verifier::external_body]
pub struct ExFormatter<'a>(Formatter<'a>);

/// `core::fmt::Error`: the failure of writing to a formatter.
#[verifier::external_type_specification]
#[verifier::external_body]
pub struct ExFormatError(core::fmt::Error);

/// `Formatter::write_str` writes text to the buffer behind a formatter.  Nothing is
/// claimed of it: [`write`] speaks of its possible results.
pub assume_specification<'a>[ Formatter::<'a>::write_str ](
    f: &mut Formatter<'a>,
    data: &str,
) -> (r: Result<(), core::fmt::Error>)
;

/// Hands `text` to the formatter.
pub(crate) fn write(f: &mut Formatter<'_>, text: &str) -> (r: Result<(), core::fmt::Error>)
    ensures
        exists|g: &mut Formatter<'_>, data: &str|
            *g == *old(f) && *final(g) == *final(f) && data@ == text@ && #[trigger] call_ensures(
                Formatter::write_str,
                (g, data),
                r,
            ),
{
    effect::call_pair(Formatter::write_str, f, text)
}

/// The hexadecimal digit of value `d`, in upper case.
pub open spec fn digit(d: int) -> Seq<char> {
    if d == 0 {
        "0"@
    } else if d == 1 {
        "1"@
    } else if d == 2 {
        "2"@
    } else if d == 3 {
        "3"@
    } else if d == 4 {
        "4"@
    } else if d == 5 {
        "5"@
    } else if d == 6 {
        "6"@
    } else if d == 7 {
        "7"@
    } else if d == 8 {
        "8"@
    } else if d == 9 {
        "9"@
    } else if d == 10 {
        "A"@
    } else if d == 11 {
        "B"@
    } else if d == 12 {
        "C"@
    } else if d == 13 {
        "D"@
    } else if d == 14 {
        "E"@
    } else {
        "F"@
    }
}

/// The decimal representation of `n`.
pub open spec fn decimal(n: nat) -> Seq<char>
    decreases n,
{
    if n < 10 {
        digit(n as int)
    } else {
        decimal(n / 10) + digit((n % 10) as int)
    }
}

/// The number that a string of decimal digits stands for.
pub open spec fn value_of(text: Seq<char>) -> int
    decreases text.len(),
{
    if text.len() == 0 {
        0
    } else {
        10 * value_of(text.drop_last()) + (text.last() as int - '0' as int)
    }
}

/// A digit is one character, counted from `0` on, and from `A` on where the ten
/// decimal digits end.
pub proof fn lemma_digit(d: int)
    requires
        0 <= d < 16,
    ensures
        digit(d).len() == 1,
        digit(d)[0] as int == (if d < 10 {
            '0' as int + d
        } else {
            'A' as int + (d - 10)
        }),
{
    reveal_strlit("0");
    reveal_strlit("1");
    reveal_strlit("2");
    reveal_strlit("3");
    reveal_strlit("4");
    reveal_strlit("5");
    reveal_strlit("6");
    reveal_strlit("7");
    reveal_strlit("8");
    reveal_strlit("9");
    reveal_strlit("A");
    reveal_strlit("B");
    reveal_strlit("C");
    reveal_strlit("D");
    reveal_strlit("E");
    reveal_strlit("F");
}

/// The decimal representation of a number consists of digits, stands for that
/// number, and has no zero in front but for the number zero.
pub proof fn lemma_decimal_value(n: nat)
    ensures
        value_of(decimal(n)) == n,
        decimal(n).len() > 0,
        forall|i: int|
            0 <= i < decimal(n).len() ==> '0' as int <= #[trigger] decimal(n)[i] as int
                <= '9' as int,
        decimal(n)[0] == '0' ==> n == 0,
    decreases n,
{
    reveal_with_fuel(value_of, 2);
    let text = decimal(n);
    if n < 10 {
        lemma_digit(n as int);
        assert(text.drop_last() =~= Seq::empty());
    } else {
        let last = digit((n % 10) as int);
        lemma_decimal_value(n / 10);
        lemma_digit((n % 10) as int);
        assert(text.drop_last() =~= decimal(n / 10));
        assert(text.last() == last[0]);
        assert(text[0] == decimal(n / 10)[0]);
        assert forall|i: int| 0 <= i < text.len() implies '0' as int <= #[trigger] text[i] as int
            <= '9' as int by {
            if i < text.len() - 1 {
                assert(text[i] == decimal(n / 10)[i]);
            }
        }
    }
}

/// Two numbers, each behind a piece of text.
pub open spec fn expected_got(before: Seq<char>, a: nat, between: Seq<char>, b: nat) -> Seq<char> {
    before + decimal(a) + between + decimal(b)
}

/// The hexadecimal digit of value `d`.
pub fn digit_str(d: u8) -> (s: &'static str)
    requires
        d < 16,
    ensures
        s@ == digit(d as int),
{
    match d {
        0 => "0",
        1 => "1",
        2 => "2",
        3 => "3",
        4 => "4",
        5 => "5",
        6 => "6",
        7 => "7",
        8 => "8",
        9 => "9",
        10 => "A",
        11 => "B",
        12 => "C",
        13 => "D",
        14 => "E",
        _ => "F",
    }
}

/// Renders `n` in decimal.
pub fn decimal_string(n: usize) -> (s: String)
    ensures
        s@ == decimal(n as nat),
    decreases n,
{
    if n < 10 {
        String::from_str(digit_str(n as u8))
    } else {
        decimal_string(n / 10).concat(digit_str((n % 10) as u8))
    }
}

/// Renders two numbers, each behind a piece of text.
pub fn two_numbers(before: &str, a: usize, between: &str, b: usize) -> (s: String)
    ensures
        s@ == expected_got(before@, a as nat, between@, b as nat),
{
    String::from_str(before).concat(decimal_string(a).as_str()).concat(between).concat(
        decimal_string(b).as_str(),
    )
}

} // verus!
