//! Containers for numbers written out in decimal digits.

use std::ops::RangeInclusive;
use vstd::prelude::*;
use vstd::std_specs::convert::TryFromSpecImpl;

verus! {

/// A whole number of any size: its digits, the most significant first, and
/// its sign.
pub struct Integer {
    digits: Vec<Digit>,
    negative: bool,
}

/// A decimal fraction of any size: the digits before and after the dot, the
/// positions after the dot that repeat for ever, and the sign.
pub struct Float {
    digits_pre_dot: Vec<Digit>,
    digits_post_dot: Vec<Digit>,
    repeating: Option<RangeInclusive<usize>>,
    negative: bool,
}

/// One decimal digit, 0 to 9.
#[derive(Debug, Clone, Copy, PartialEq, Eq, PartialOrd, Ord, Hash)]
pub struct Digit(u8);

impl View for Digit {
    type V = u8;

    closed spec fn view(&self) -> u8 {
        self.0
    }
}

impl Digit {
    #[verifier::type_invariant]
    spec fn in_range(self) -> bool {
        self.0 <= 9
    }

    /// The digit whose value is `digit`, for a value up to 9.
    pub closed spec fn of(digit: u8) -> Digit {
        Digit(digit)
    }

    /// A digit is its value and nothing more.
    pub proof fn lemma_of_view(digit: u8)
        ensures
            Digit::of(digit)@ == digit,
    {
    }

    /// The digit of the given value, where there is one.
    pub fn new(digit: u8) -> (r: Option<Digit>)
        ensures
            r == if digit <= 9 {
                Some(Digit::of(digit))
            } else {
                None
            },
    {
        if digit > 9 {
            None
        } else {
            Some(Digit::new_unchecked(digit))
        }
    }

    /// The digit's value.
    pub fn digit(&self) -> (r: u8)
        ensures
            r == self@,
            r <= 9,
    {
        proof {
            use_type_invariant(self);
        }
        self.0
    }

    /// The digit of a value that is known to be one.
    pub fn new_unchecked(digit: u8) -> (r: Digit)
        requires
            digit <= 9,
        ensures
            r == Digit::of(digit),
    {
        Digit(digit)
    }
}

/// The character that was refused: it is no digit.
#[derive(Debug, Clone, Copy, PartialEq, Eq, Structural)]
pub struct DigitTryFromCharError(pub char);

/// The value that was refused: it is above 9.
#[derive(Debug, Clone, Copy, PartialEq, Eq, Structural)]
pub struct DigitTryFromU8Error(pub u8);

impl TryFrom<char> for Digit {
    type Error = DigitTryFromCharError;

    fn try_from(char: char) -> (r: Result<Self, Self::Error>) {
        if char < '0' || char > '9' {
            return Err(DigitTryFromCharError(char));
        }
        let value = char as u32 - '0' as u32;
        Ok(Digit::new_unchecked(value as u8))
    }
}

impl TryFromSpecImpl<char> for Digit {
    open spec fn obeys_try_from_spec() -> bool {
        true
    }

    open spec fn try_from_spec(v: char) -> Result<Self, Self::Error> {
        if '0' <= v <= '9' {
            Ok(Digit::of((v as u32 - '0' as u32) as u8))
        } else {
            Err(DigitTryFromCharError(v))
        }
    }
}

impl TryFrom<u8> for Digit {
    type Error = DigitTryFromU8Error;

    fn try_from(value: u8) -> (r: Result<Self, Self::Error>) {
        if value > 9 {
            return Err(DigitTryFromU8Error(value));
        }
        Ok(Digit::new_unchecked(value))
    }
}

impl TryFromSpecImpl<u8> for Digit {
    open spec fn obeys_try_from_spec() -> bool {
        true
    }

    open spec fn try_from_spec(v: u8) -> Result<Self, Self::Error> {
        if v <= 9 {
            Ok(Digit::of(v))
        } else {
            Err(DigitTryFromU8Error(v))
        }
    }
}

} // verus!
