//! The filters that a query may carry, and the text form of the input filter.

use vstd::prelude::*;
use vstd::string::*;

verus! {

/// Which inputs a query is about: all of them, or the one with a pool index.
#[derive(Clone, Copy, Debug, PartialEq, Eq, Structural)]
pub enum InputFilter {
    All,
    Input(usize),
}

/// Which functions a listing leaves out.
#[derive(Clone, Copy, Debug, PartialEq, Eq, Structural)]
pub enum FunctionFilter {
    Exclude0PercentCoverage,
    Exclude100PercentCoverage,
}

/// Which of the counters that an input hits count for a listing.
#[derive(Clone, Copy, Debug, PartialEq, Eq, Structural)]
pub enum CoverageKindFilter {
    All,
    LeastComplex,
    Unique,
}

/// A stored input: its pool index and the hash of its content.
#[derive(Clone, Debug, PartialEq, Eq)]
pub struct InputInfo {
    pub pool_idx: usize,
    pub hash: String,
}

/// The value of the decimal digit `c`, or `None` where `c` is no decimal digit.
pub open spec fn digit_value(c: char) -> Option<nat> {
    if c == '0' {
        Some(0)
    } else if c == '1' {
        Some(1)
    } else if c == '2' {
        Some(2)
    } else if c == '3' {
        Some(3)
    } else if c == '4' {
        Some(4)
    } else if c == '5' {
        Some(5)
    } else if c == '6' {
        Some(6)
    } else if c == '7' {
        Some(7)
    } else if c == '8' {
        Some(8)
    } else if c == '9' {
        Some(9)
    } else {
        None
    }
}

/// Tells whether `text` holds decimal digits only.
pub open spec fn all_digits(text: Seq<char>) -> bool {
    forall|i: int| 0 <= i < text.len() ==> digit_value(#[trigger] text[i]) is Some
}

/// The number that the decimal digits `text` stand for.
pub open spec fn digits_number(text: Seq<char>) -> nat
    decreases text.len(),
{
    if text.len() == 0 {
        0
    } else {
        digits_number(text.drop_last()) * 10 + match digit_value(text.last()) {
            Some(d) => d,
            None => 0,
        }
    }
}

/// `text` without the plus sign at its start, if it has one.
pub open spec fn unsigned_part(text: Seq<char>) -> Seq<char> {
    if text.len() > 0 && text[0] == '+' {
        text.skip(1)
    } else {
        text
    }
}

/// The machine number that `text` stands for: `text` is an optional plus sign
/// and then one or more decimal digits, whose number is a machine number.
pub open spec fn parsed_number(text: Seq<char>) -> Option<usize> {
    let digits = unsigned_part(text);
    if digits.len() > 0 && all_digits(digits) && digits_number(digits) <= usize::MAX {
        Some(digits_number(digits) as usize)
    } else {
        None
    }
}

/// The filter that `text` stands for: `all` stands for all inputs, a number for
/// the input with that pool index, and anything else for no filter.
pub open spec fn parsed_filter(text: Seq<char>) -> Option<InputFilter> {
    if text == "all"@ {
        Some(InputFilter::All)
    } else {
        match parsed_number(text) {
            Some(index) => Some(InputFilter::Input(index)),
            None => None,
        }
    }
}

/// A number does not get smaller when a digit is put behind it.
proof fn lemma_number_grows(text: Seq<char>, count: int)
    requires
        0 <= count <= text.len(),
    ensures
        digits_number(text.take(count)) <= digits_number(text),
    decreases text.len() - count,
{
    if count < text.len() {
        lemma_number_grows(text, count + 1);
        assert(text.take(count + 1).drop_last() =~= text.take(count));
    } else {
        assert(text.take(count) =~= text);
    }
}

/// The value of `c` as a decimal digit.
fn decimal_digit(c: char) -> (value: Option<usize>)
    ensures
        match value {
            Some(d) => digit_value(c) == Some(d as nat) && d < 10,
            None => digit_value(c) is None,
        },
{
    if c == '0' {
        Some(0)
    } else if c == '1' {
        Some(1)
    } else if c == '2' {
        Some(2)
    } else if c == '3' {
        Some(3)
    } else if c == '4' {
        Some(4)
    } else if c == '5' {
        Some(5)
    } else if c == '6' {
        Some(6)
    } else if c == '7' {
        Some(7)
    } else if c == '8' {
        Some(8)
    } else if c == '9' {
        Some(9)
    } else {
        None
    }
}

/// Reads `text` as a machine number in decimal notation.
pub fn parse_number(text: &str) -> (number: Option<usize>)
    ensures
        number == parsed_number(text@),
{
    let ghost digits = unsigned_part(text@);
    let mut value: usize = 0;
    let mut started: bool = false;
    let mut signed: bool = false;
    let mut any_digit: bool = false;
    for c in it: text.chars()
        invariant
            it.seq() == text@,
            digits == unsigned_part(text@),
            started == (it.index() > 0),
            signed == (it.index() > 0 && text@[0] == '+'),
            any_digit == (it.index() - (if signed { 1int } else { 0int }) > 0),
            all_digits(digits.take(it.index() - (if signed { 1int } else { 0int }))),
            value == digits_number(digits.take(it.index() - (if signed { 1int } else { 0int }))),
    {
        if !started && c == '+' {
            signed = true;
            assert(digits.take(0) =~= Seq::<char>::empty());
        } else {
            let ghost seen = it.index() - (if signed { 1int } else { 0int });
            assert(digits[seen] == c);
            assert(digits.take(seen + 1).drop_last() =~= digits.take(seen));
            match decimal_digit(c) {
                None => {
                    return None;
                },
                Some(d) => {
                    proof {
                        lemma_number_grows(digits, seen + 1);
                    }
                    match value.checked_mul(10) {
                        None => {
                            return None;
                        },
                        Some(tens) => match tens.checked_add(d) {
                            None => {
                                return None;
                            },
                            Some(next) => {
                                value = next;
                            },
                        },
                    }
                    any_digit = true;
                },
            }
        }
        started = true;
    }
    assert(digits.take(digits.len() as int) =~= digits);
    if any_digit {
        Some(value)
    } else {
        None
    }
}

impl InputFilter {
    /// Reads the text form of an input filter.
    pub fn from_string(s: &str) -> (filter: Option<InputFilter>)
        ensures
            filter == parsed_filter(s@),
    {
        proof {
            reveal_strlit("all");
        }
        if s.unicode_len() == 3 && s.get_char(0) == 'a' && s.get_char(1) == 'l' && s.get_char(2)
            == 'l' {
            assert(s@ =~= "all"@);
            return Some(InputFilter::All);
        }
        match parse_number(s) {
            Some(index) => Some(InputFilter::Input(index)),
            None => None,
        }
    }
}

} // verus!
