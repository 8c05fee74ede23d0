//! One-time codes: generation and validation over a configurable alphabet.

use crate::entropy::os_next_u32;
use crate::parser::Parser;
use crate::strutil::push_char;
use vstd::prelude::*;

verus! {

/// An ASCII digit.
pub open spec fn digit_char(c: char) -> bool {
    '0' <= c && c <= '9'
}

/// An ASCII letter.
pub open spec fn letter_char(c: char) -> bool {
    ('a' <= c && c <= 'z') || ('A' <= c && c <= 'Z')
}

/// True for a character the code may contain: a digit where digits are
/// permitted, or a letter where letters are permitted.
pub open spec fn otp_char(c: char, digits: bool, alphabetic: bool) -> bool {
    (digits && digit_char(c)) || (alphabetic && letter_char(c))
}

/// The one-time-code grammar: exactly `len` characters, each drawn from the
/// permitted alphabet.
pub open spec fn otp_valid(data: Seq<char>, len: usize, digits: bool, alphabetic: bool) -> bool {
    &&& data.len() == len
    &&& forall|i: int| 0 <= i < data.len() ==> otp_char(#[trigger] data[i], digits, alphabetic)
}

/// A one-time code of fixed length `LEN`. `DIGITS` permits decimal digits,
/// `ALPHABETIC` permits ASCII letters.
#[derive(Debug, Clone, PartialEq)]
pub struct Otp<const LEN: usize, const DIGITS: bool, const ALPHABETIC: bool>(String);

impl<const LEN: usize, const DIGITS: bool, const ALPHABETIC: bool> View for Otp<
    LEN,
    DIGITS,
    ALPHABETIC,
> {
    type V = Seq<char>;

    closed spec fn view(&self) -> Seq<char> {
        self.0@
    }
}

impl<const LEN: usize, const DIGITS: bool, const ALPHABETIC: bool> Parser for Otp<
    LEN,
    DIGITS,
    ALPHABETIC,
> {
    open spec fn spec_valid(data: Seq<char>) -> bool {
        otp_valid(data, LEN, DIGITS, ALPHABETIC)
    }

    fn valid(data: &str) -> (r: bool) {
        let len = data.unicode_len();
        if len != LEN {
            return false;
        }
        let mut i: usize = 0;
        while i < len
            invariant
                i <= len,
                len == data@.len(),
                forall|j: int| 0 <= j < i ==> otp_char(#[trigger] data@[j], DIGITS, ALPHABETIC),
            decreases len - i,
        {
            let c = data.get_char(i);
            let is_digit = '0' <= c && c <= '9';
            let is_letter = ('a' <= c && c <= 'z') || ('A' <= c && c <= 'Z');
            if !((DIGITS && is_digit) || (ALPHABETIC && is_letter)) {
                return false;
            }
            i += 1;
        }
        true
    }

    fn from_unchecked(data: &str) -> (r: Self) {
        Otp(data.to_owned())
    }
}

impl<const LEN: usize, const DIGITS: bool, const ALPHABETIC: bool> Otp<LEN, DIGITS, ALPHABETIC> {
    /// Builds a code when the grammar holds, and rejects the string
    /// otherwise.
    pub fn new(data: &str) -> (r: Option<Self>)
        ensures
            r is Some <==> otp_valid(data@, LEN, DIGITS, ALPHABETIC),
            r is Some ==> r->0@ == data@,
    {
        if Self::valid(data) {
            Some(Otp(data.to_owned()))
        } else {
            None
        }
    }

    /// Draws a fresh code from the operating system's randomness source.
    /// At least one of the two character classes must be permitted.
    pub fn generate() -> (r: Self)
        requires
            DIGITS || ALPHABETIC,
        ensures
            otp_valid(r@, LEN, DIGITS, ALPHABETIC),
    {
        let ciphers = Self::alphabet();
        let mut otp = String::new();
        let mut n: usize = 0;
        while n < LEN
            invariant
                n <= LEN,
                ciphers@.len() > 0,
                forall|i: int|
                    0 <= i < ciphers@.len() ==> otp_char(
                        #[trigger] ciphers@[i],
                        DIGITS,
                        ALPHABETIC,
                    ),
                otp@.len() == n,
                forall|i: int| 0 <= i < otp@.len() ==> otp_char(#[trigger] otp@[i], DIGITS, ALPHABETIC),
            decreases LEN - n,
        {
            let idx = (os_next_u32() as usize) % ciphers.len();
            push_char(&mut otp, ciphers[idx]);
            n += 1;
        }
        Otp(otp)
    }

    /// The permitted characters, in a fixed order.
    fn alphabet() -> (r: Vec<char>)
        requires
            DIGITS || ALPHABETIC,
        ensures
            r@.len() > 0,
            forall|i: int| 0 <= i < r@.len() ==> otp_char(#[trigger] r@[i], DIGITS, ALPHABETIC),
    {
        let mut ciphers: Vec<char> = Vec::new();
        if DIGITS {
            let mut b: u8 = 48;
            while b <= 57
                invariant
                    48 <= b <= 58,
                    DIGITS,
                    forall|i: int|
                        0 <= i < ciphers@.len() ==> otp_char(
                            #[trigger] ciphers@[i],
                            DIGITS,
                            ALPHABETIC,
                        ),
                    ciphers@.len() == b - 48,
                decreases 58 - b,
            {
                ciphers.push(b as char);
                b += 1;
            }
        }
        if ALPHABETIC {
            let mut b: u8 = 97;
            while b <= 122
                invariant
                    97 <= b <= 123,
                    ALPHABETIC,
                    forall|i: int|
                        0 <= i < ciphers@.len() ==> otp_char(
                            #[trigger] ciphers@[i],
                            DIGITS,
                            ALPHABETIC,
                        ),
                    ciphers@.len() >= b - 97,
                decreases 123 - b,
            {
                ciphers.push(b as char);
                b += 1;
            }
            let mut b: u8 = 65;
            while b <= 90
                invariant
                    65 <= b <= 91,
                    ALPHABETIC,
                    ciphers@.len() > 0,
                    forall|i: int|
                        0 <= i < ciphers@.len() ==> otp_char(
                            #[trigger] ciphers@[i],
                            DIGITS,
                            ALPHABETIC,
                        ),
                decreases 91 - b,
            {
                ciphers.push(b as char);
                b += 1;
            }
        }
        ciphers
    }
}

} // verus!
