use vstd::prelude::*;

use crate::chars::{digit, digit_value, is_digit};

verus! {

/// A scanned numeric literal, kept as the digits that were read rather than
/// as a computed value: the sign, the digits before and after the decimal
/// point, and the sign and digits of the exponent. Each digit is a value
/// from 0 to 9.
#[derive(Debug, PartialEq, Eq)]
pub struct NumberLiteral {
    pub negative: bool,
    pub int_digits: Vec<u8>,
    pub frac_digits: Vec<u8>,
    pub exp_negative: bool,
    pub exp_digits: Vec<u8>,
}

/// The mathematical model of a [`NumberLiteral`].
pub struct NumberView {
    pub negative: bool,
    pub int_digits: Seq<u8>,
    pub frac_digits: Seq<u8>,
    pub exp_negative: bool,
    pub exp_digits: Seq<u8>,
}

impl View for NumberLiteral {
    type V = NumberView;

    open spec fn view(&self) -> NumberView {
        NumberView {
            negative: self.negative,
            int_digits: self.int_digits@,
            frac_digits: self.frac_digits@,
            exp_negative: self.exp_negative,
            exp_digits: self.exp_digits@,
        }
    }
}

/// The accumulators before any character has been read.
pub open spec fn empty_number() -> NumberView {
    NumberView {
        negative: false,
        int_digits: Seq::empty(),
        frac_digits: Seq::empty(),
        exp_negative: false,
        exp_digits: Seq::empty(),
    }
}

/// Every entry is a decimal digit value.
pub open spec fn all_digits(d: Seq<u8>) -> bool {
    forall|k: int| 0 <= k < d.len() ==> #[trigger] d[k] < 10
}

impl NumberView {
    pub open spec fn wf(self) -> bool {
        all_digits(self.int_digits) && all_digits(self.frac_digits) && all_digits(self.exp_digits)
    }

    /// A literal yields a token only when its mantissa has a digit.
    pub open spec fn has_mantissa(self) -> bool {
        self.int_digits.len() + self.frac_digits.len() > 0
    }
}

/// The number that decimal digits spell, most significant first.
pub open spec fn digits_value(d: Seq<u8>) -> nat
    decreases d.len(),
{
    if d.len() == 0 {
        0
    } else {
        digits_value(d.drop_last()) * 10 + d.last() as nat
    }
}

impl NumberView {
    /// The signed power of ten that the exponent part stands for.
    pub open spec fn exponent(self) -> int {
        if self.exp_negative {
            -digits_value(self.exp_digits)
        } else {
            digits_value(self.exp_digits) as int
        }
    }
}

/// `x` held within `-i32::MAX ..= i32::MAX`.
pub open spec fn saturate(x: int) -> int {
    if x > i32::MAX {
        i32::MAX as int
    } else if x < -i32::MAX {
        -i32::MAX
    } else {
        x
    }
}

/// States of the numeric recognizer.
#[derive(Clone, Copy, PartialEq, Eq, Structural, Debug)]
pub enum NumberState {
    Start,
    Sign,
    Integer,
    DecimalPoint,
    Fraction,
    Exponent,
}

/// The transition table over state and accumulators. `None` means that the
/// recognizer stops before `c`.
pub open spec fn number_transition(st: NumberState, acc: NumberView, c: char) -> Option<
    (NumberState, NumberView),
> {
    let int_digit = NumberView { int_digits: acc.int_digits.push(digit_value(c)), ..acc };
    let frac_digit = NumberView { frac_digits: acc.frac_digits.push(digit_value(c)), ..acc };
    match st {
        NumberState::Start => if c == '-' {
            Some((NumberState::Sign, NumberView { negative: true, ..acc }))
        } else if is_digit(c) {
            Some((NumberState::Integer, int_digit))
        } else if c == '.' {
            Some((NumberState::DecimalPoint, acc))
        } else {
            None
        },
        NumberState::Sign => if is_digit(c) {
            Some((NumberState::Integer, int_digit))
        } else {
            None
        },
        NumberState::Integer => if is_digit(c) {
            Some((NumberState::Integer, int_digit))
        } else if c == '.' {
            Some((NumberState::DecimalPoint, acc))
        } else if c == 'e' || c == 'E' {
            Some((NumberState::Exponent, acc))
        } else {
            None
        },
        NumberState::DecimalPoint => if is_digit(c) {
            Some((NumberState::Fraction, frac_digit))
        } else {
            None
        },
        NumberState::Fraction => if is_digit(c) {
            Some((NumberState::Fraction, frac_digit))
        } else if c == 'e' || c == 'E' {
            Some((NumberState::Exponent, acc))
        } else {
            None
        },
        NumberState::Exponent => if c == '-' {
            Some((NumberState::Exponent, NumberView { exp_negative: true, ..acc }))
        } else if c == '+' {
            Some((NumberState::Exponent, acc))
        } else if is_digit(c) {
            Some(
                (
                    NumberState::Exponent,
                    NumberView { exp_digits: acc.exp_digits.push(digit_value(c)), ..acc },
                ),
            )
        } else {
            None
        },
    }
}

/// Runs the recognizer over `s` from position `i`. Returns the position
/// where it stopped and the accumulators at that point.
pub open spec fn number_run(s: Seq<char>, i: nat, st: NumberState, acc: NumberView) -> (
    nat,
    NumberView,
)
    decreases s.len() - i,
{
    if i >= s.len() {
        (i, acc)
    } else {
        match number_transition(st, acc, s[i as int]) {
            Some((next, acc2)) => number_run(s, i + 1, next, acc2),
            None => (i, acc),
        }
    }
}

/// A run never moves backwards, nor past the end of the input, and keeps
/// every accumulated entry a digit.
pub proof fn lemma_number_run_bounds(s: Seq<char>, i: nat, st: NumberState, acc: NumberView)
    requires
        acc.wf(),
    ensures
        i <= number_run(s, i, st, acc).0,
        i <= s.len() ==> number_run(s, i, st, acc).0 <= s.len(),
        number_run(s, i, st, acc).1.wf(),
    decreases s.len() - i,
{
    if i < s.len() {
        if let Some((next, acc2)) = number_transition(st, acc, s[i as int]) {
            lemma_number_run_bounds(s, i + 1, next, acc2);
        }
    }
}

/// A run from the start state over a leading digit, '.' or '-' consumes at
/// least that character.
pub proof fn lemma_number_run_advances(s: Seq<char>, i: nat)
    requires
        i < s.len(),
        is_digit(s[i as int]) || s[i as int] == '.' || s[i as int] == '-',
    ensures
        i < number_run(s, i, NumberState::Start, empty_number()).0 <= s.len(),
        number_run(s, i, NumberState::Start, empty_number()).1.wf(),
{
    let (next, acc2) = number_transition(NumberState::Start, empty_number(), s[i as int])->0;
    lemma_number_run_bounds(s, i + 1, next, acc2);
}

fn digit_of(c: char) -> (r: u8)
    requires
        is_digit(c),
    ensures
        r == digit_value(c),
        r < 10,
{
    (c as u32 - '0' as u32) as u8
}

impl NumberLiteral {
    /// A literal with no sign and no digits.
    pub fn new() -> (r: NumberLiteral)
        ensures
            r@ == empty_number(),
    {
        NumberLiteral {
            negative: false,
            int_digits: Vec::new(),
            frac_digits: Vec::new(),
            exp_negative: false,
            exp_digits: Vec::new(),
        }
    }

    /// The signed power of ten of the exponent part, saturated to the range
    /// of `i32` (beyond it, any scaling of a double gives zero or infinity).
    pub fn exponent(&self) -> (r: i32)
        ensures
            r == saturate(self@.exponent()),
    {
        let mut e: i32 = 0;
        let mut k: usize = 0;
        while k < self.exp_digits.len()
            invariant
                k <= self.exp_digits.len(),
                e == if digits_value(self.exp_digits@.take(k as int)) > i32::MAX {
                    i32::MAX as int
                } else {
                    digits_value(self.exp_digits@.take(k as int)) as int
                },
            decreases self.exp_digits.len() - k,
        {
            let d = self.exp_digits[k];
            let ghost before = self.exp_digits@.take(k as int);
            assert(self.exp_digits@.take(k + 1).drop_last() =~= before);
            if e > (i32::MAX - d as i32) / 10 {
                e = i32::MAX;
            } else {
                e = e * 10 + d as i32;
            }
            k = k + 1;
        }
        assert(self.exp_digits@.take(k as int) =~= self.exp_digits@);
        if self.exp_negative {
            -e
        } else {
            e
        }
    }

    /// Reads `c` in state `st`: updates the accumulators and returns the next
    /// state, or returns `None` and leaves them unchanged.
    pub fn advance(&mut self, st: NumberState, c: char) -> (r: Option<NumberState>)
        ensures
            match number_transition(st, old(self)@, c) {
                Some((next, acc)) => r == Some(next) && final(self)@ == acc,
                None => r is None && final(self)@ == old(self)@,
            },
    {
        match st {
            NumberState::Start => if c == '-' {
                self.negative = true;
                Some(NumberState::Sign)
            } else if digit(c) {
                self.int_digits.push(digit_of(c));
                Some(NumberState::Integer)
            } else if c == '.' {
                Some(NumberState::DecimalPoint)
            } else {
                None
            },
            NumberState::Sign => if digit(c) {
                self.int_digits.push(digit_of(c));
                Some(NumberState::Integer)
            } else {
                None
            },
            NumberState::Integer => if digit(c) {
                self.int_digits.push(digit_of(c));
                Some(NumberState::Integer)
            } else if c == '.' {
                Some(NumberState::DecimalPoint)
            } else if c == 'e' || c == 'E' {
                Some(NumberState::Exponent)
            } else {
                None
            },
            NumberState::DecimalPoint => if digit(c) {
                self.frac_digits.push(digit_of(c));
                Some(NumberState::Fraction)
            } else {
                None
            },
            NumberState::Fraction => if digit(c) {
                self.frac_digits.push(digit_of(c));
                Some(NumberState::Fraction)
            } else if c == 'e' || c == 'E' {
                Some(NumberState::Exponent)
            } else {
                None
            },
            NumberState::Exponent => if c == '-' {
                self.exp_negative = true;
                Some(NumberState::Exponent)
            } else if c == '+' {
                Some(NumberState::Exponent)
            } else if digit(c) {
                self.exp_digits.push(digit_of(c));
                Some(NumberState::Exponent)
            } else {
                None
            },
        }
    }
}

} // verus!
