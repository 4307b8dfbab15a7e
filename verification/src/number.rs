//! Numbers, held as the decimal literal that was read: a sign, the digits
//! before and behind the point, and a signed exponent.

use vstd::prelude::*;
use vstd::string::StringExecFns;
use crate::scan::{at, is_digit, run, take_run, CharClass};
use crate::text::chars_of;

verus! {

/// The mathematical content of a [`JsonNumber`]: its five parts as plain
/// sequences. The number it denotes is
/// `(-1)^negative * significand() * 10^scale()`.
pub ghost struct Decimal {
    pub negative: bool,
    pub integer: Seq<char>,
    pub fraction: Seq<char>,
    pub exponent_negative: bool,
    pub exponent: Seq<char>,
}

/// Every character of `digits` is an ASCII digit.
pub open spec fn all_digits(digits: Seq<char>) -> bool {
    forall|i: int| 0 <= i < digits.len() ==> is_digit(#[trigger] digits[i])
}

/// The natural number that a run of digits denotes; an empty run denotes 0.
pub open spec fn digits_value(digits: Seq<char>) -> nat
    decreases digits.len(),
{
    if digits.len() == 0 {
        0
    } else {
        (digits_value(digits.drop_last()) * 10 + (digits.last() as u32 - '0' as u32)) as nat
    }
}

impl Decimal {
    /// The three digit runs hold digits only.
    pub open spec fn wf(self) -> bool {
        &&& all_digits(self.integer)
        &&& all_digits(self.fraction)
        &&& all_digits(self.exponent)
    }

    /// The digits before and behind the point, read as one natural number.
    pub open spec fn significand(self) -> nat {
        digits_value(self.integer + self.fraction)
    }

    /// The exponent as written, with its sign.
    pub open spec fn exponent_value(self) -> int {
        if self.exponent_negative {
            -(digits_value(self.exponent) as int)
        } else {
            digits_value(self.exponent) as int
        }
    }

    /// The power of ten by which the significand is scaled.
    pub open spec fn scale(self) -> int {
        self.exponent_value() - self.fraction.len()
    }

    /// The exponent part of the literal: nothing where no exponent was
    /// written, else `e`, a `-` for a negative one, and the digits.
    pub open spec fn exponent_text(self) -> Seq<char> {
        if self.exponent_negative {
            seq!['e', '-'] + self.exponent
        } else if self.exponent.len() > 0 {
            seq!['e'] + self.exponent
        } else {
            Seq::empty()
        }
    }

    /// The fraction part of the literal: nothing where there are no digits
    /// behind the point, else the point and the digits.
    pub open spec fn fraction_text(self) -> Seq<char> {
        if self.fraction.len() > 0 {
            seq!['.'] + self.fraction
        } else {
            Seq::empty()
        }
    }

    /// The sign of the literal: `-` or nothing.
    pub open spec fn sign_text(self) -> Seq<char> {
        if self.negative {
            seq!['-']
        } else {
            Seq::empty()
        }
    }

    /// The literal that denotes this number: sign, integer digits, fraction
    /// part, exponent part.
    pub open spec fn text(self) -> Seq<char> {
        self.sign_text() + self.integer + self.fraction_text() + self.exponent_text()
    }
}

/// The integer nearest to `x` that a 32-bit signed integer can hold.
pub open spec fn clamp_i32(x: int) -> int {
    if x < i32::MIN {
        i32::MIN as int
    } else if x > i32::MAX {
        i32::MAX as int
    } else {
        x
    }
}

/// A number as it was written. Digit runs may be empty and then count as 0.
#[derive(Debug, PartialEq, Eq)]
pub struct JsonNumber {
    /// Whether the literal began with `-`.
    pub negative: bool,
    /// The digits before the point.
    pub integer: String,
    /// The digits behind the point.
    pub fraction: String,
    /// Whether the exponent was written with `-`.
    pub exponent_negative: bool,
    /// The digits of the exponent.
    pub exponent: String,
}

impl View for JsonNumber {
    type V = Decimal;

    open spec fn view(&self) -> Decimal {
        Decimal {
            negative: self.negative,
            integer: self.integer@,
            fraction: self.fraction@,
            exponent_negative: self.exponent_negative,
            exponent: self.exponent@,
        }
    }
}

/// What the number grammar reads at `pos`: an optional `-`, digits, an
/// optional point with digits, and an optional `e` or `E` with an optional
/// sign and digits. The second component is the position behind the literal.
pub open spec fn spec_parse_number(s: Seq<char>, pos: int) -> (Decimal, int) {
    let negative = at(s, pos) == Some('-');
    let int_start = if negative { pos + 1 } else { pos };
    let integer = run(s, int_start, CharClass::Digit);
    let int_end = int_start + integer.len();
    let has_point = at(s, int_end) == Some('.');
    let fraction = if has_point { run(s, int_end + 1, CharClass::Digit) } else { Seq::empty() };
    let frac_end = if has_point { int_end + 1 + fraction.len() } else { int_end };
    let has_exponent = at(s, frac_end) == Some('e') || at(s, frac_end) == Some('E');
    let sign = at(s, frac_end + 1);
    let exponent_negative = has_exponent && sign == Some('-');
    let exp_start = if sign == Some('-') || sign == Some('+') { frac_end + 2 } else { frac_end + 1 };
    let exponent = if has_exponent { run(s, exp_start, CharClass::Digit) } else { Seq::empty() };
    let end = if has_exponent { exp_start + exponent.len() } else { frac_end };
    (Decimal { negative, integer, fraction, exponent_negative, exponent }, end)
}

/// Reads a number at `pos`. Returns it with the position behind the
/// characters that belong to it; where no part of a number stands at `pos`,
/// the number is 0 and the position is `pos`.
pub fn parse_json_number(s: &[char], pos: usize) -> (r: (JsonNumber, usize))
    ensures
        (r.0@, r.1 as int) == spec_parse_number(s@, pos as int),
        r.0@.wf(),
        pos <= r.1,
        pos <= s@.len() ==> r.1 <= s@.len(),
{
    let mut i: usize = pos;
    let negative = i < s.len() && s[i] == '-';
    if negative {
        i += 1;
    }
    let (integer, int_end) = take_run(s, i, CharClass::Digit);
    i = int_end;
    let mut fraction = String::new();
    if i < s.len() && s[i] == '.' {
        let (digits, frac_end) = take_run(s, i + 1, CharClass::Digit);
        fraction = digits;
        i = frac_end;
    }
    let mut exponent_negative = false;
    let mut exponent = String::new();
    if i < s.len() && (s[i] == 'e' || s[i] == 'E') {
        let mut j: usize = i + 1;
        if j < s.len() && s[j] == '-' {
            exponent_negative = true;
            j += 1;
        } else if j < s.len() && s[j] == '+' {
            j += 1;
        }
        let (digits, exp_end) = take_run(s, j, CharClass::Digit);
        exponent = digits;
        i = exp_end;
    }
    (JsonNumber { negative, integer, fraction, exponent_negative, exponent }, i)
}

impl JsonNumber {
    /// The literal that denotes this number.
    pub fn to_string(&self) -> (out: String)
        ensures
            out@ == self@.text(),
    {
        let mut out = String::new();
        if self.negative {
            out.push('-');
        }
        out.append(self.integer.as_str());
        if self.fraction.as_str().unicode_len() > 0 {
            out.push('.');
            out.append(self.fraction.as_str());
        }
        if self.exponent_negative {
            out.push('e');
            out.push('-');
            out.append(self.exponent.as_str());
        } else if self.exponent.as_str().unicode_len() > 0 {
            out.push('e');
            out.append(self.exponent.as_str());
        }
        proof {
            assert(out@ =~= self@.text());
        }
        out
    }

    /// The exponent as a machine integer: its value where that fits, else
    /// the bound on its side.
    pub fn exponent_i32(&self) -> (e: i32)
        requires
            self@.wf(),
        ensures
            e as int == clamp_i32(self@.exponent_value()),
    {
        let digits = chars_of(self.exponent.as_str());
        let cap: u64 = 2147483648;
        let mut magnitude: u64 = 0;
        let mut i: usize = 0;
        proof {
            assert(digits@.take(0) =~= Seq::<char>::empty());
        }
        while i < digits.len()
            invariant
                i <= digits@.len(),
                cap == 2147483648,
                all_digits(digits@),
                magnitude as int == if digits_value(digits@.take(i as int)) < cap {
                    digits_value(digits@.take(i as int)) as int
                } else {
                    cap as int
                },
            decreases digits@.len() - i,
        {
            let c = digits[i];
            proof {
                assert(is_digit(digits@[i as int]));
                assert(digits@.take(i + 1).drop_last() =~= digits@.take(i as int));
                assert(digits@.take(i + 1).last() == c);
            }
            let digit: u64 = (c as u32 - '0' as u32) as u64;
            let next: u64 = magnitude * 10 + digit;
            magnitude = if next > cap { cap } else { next };
            i += 1;
        }
        proof {
            assert(digits@.take(i as int) =~= self.exponent@);
        }
        if self.exponent_negative {
            if magnitude >= cap {
                i32::MIN
            } else {
                -(magnitude as i32)
            }
        } else {
            if magnitude >= cap {
                i32::MAX
            } else {
                magnitude as i32
            }
        }
    }
}

} // verus!
