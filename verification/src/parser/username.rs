//! Username grammar: short names over a small ASCII alphabet.

use crate::parser::Parser;
use vstd::prelude::*;

verus! {

/// Shortest username accepted.
pub const USERNAME_MIN_LENGTH: usize = 2;

/// Longest username accepted.
pub const USERNAME_MAX_LENGTH: usize = 32;

/// True for the characters a username may contain: ASCII letters, digits,
/// dot, underscore and dash.
pub open spec fn username_char(c: char) -> bool {
    ('a' <= c && c <= 'z') || ('A' <= c && c <= 'Z') || ('0' <= c && c <= '9') || c == '.' || c
        == '_' || c == '-'
}

/// The username grammar: 2 to 32 characters, all from the username alphabet,
/// and no two consecutive dots anywhere in the string.
pub open spec fn username_valid(data: Seq<char>) -> bool {
    &&& USERNAME_MIN_LENGTH <= data.len() <= USERNAME_MAX_LENGTH
    &&& forall|i: int| 0 <= i < data.len() ==> username_char(#[trigger] data[i])
    &&& forall|i: int| 0 <= i < data.len() - 1 ==> !(#[trigger] data[i] == '.' && data[i + 1]
        == '.')
}

/// A username whose grammar was checked when it was built, unless it came
/// through `from_unchecked`.
pub struct Username(pub String);

impl View for Username {
    type V = Seq<char>;

    open spec fn view(&self) -> Seq<char> {
        self.0@
    }
}

impl Parser for Username {
    open spec fn spec_valid(data: Seq<char>) -> bool {
        username_valid(data)
    }

    fn valid(data: &str) -> (r: bool) {
        let len = data.unicode_len();
        if len < USERNAME_MIN_LENGTH || len > USERNAME_MAX_LENGTH {
            return false;
        }
        let mut i: usize = 0;
        while i < len
            invariant
                i <= len,
                len == data@.len(),
                USERNAME_MIN_LENGTH <= len <= USERNAME_MAX_LENGTH,
                forall|j: int| 0 <= j < i ==> username_char(#[trigger] data@[j]),
                forall|j: int|
                    0 <= j < i && j + 1 < len ==> !(#[trigger] data@[j] == '.' && data@[j + 1]
                        == '.'),
            decreases len - i,
        {
            let c = data.get_char(i);
            if !(('a' <= c && c <= 'z') || ('A' <= c && c <= 'Z') || ('0' <= c && c <= '9') || c
                == '.' || c == '_' || c == '-') {
                return false;
            }
            if c == '.' && i + 1 < len && data.get_char(i + 1) == '.' {
                return false;
            }
            i += 1;
        }
        true
    }

    fn from_unchecked(data: &str) -> (r: Self) {
        Username(data.to_owned())
    }
}

impl Username {
    /// Builds a username when the grammar holds, and rejects the string
    /// otherwise.
    pub fn new(data: &str) -> (r: Option<Self>)
        ensures
            r is Some <==> username_valid(data@),
            r is Some ==> r->0@ == data@,
    {
        if Self::valid(data) {
            Some(Username(data.to_owned()))
        } else {
            None
        }
    }
}

} // verus!
