//! Email grammar: the historical address shape `local@domain`, where the
//! local part is dot-separated words (bare atoms or quoted strings) and the
//! domain is dot-separated words (bare atoms or bracketed literals).
//! Purely syntactic; no deliverability check.

use crate::parser::Parser;
use crate::strutil::chars_of_str;
use vstd::prelude::*;

verus! {

/// A character an unquoted word (atom) may contain: anything above space
/// except the structural characters `"(),.:;<>@[\]` and the range
/// U+007F to U+00FF.
pub open spec fn atom_char(c: char) -> bool {
    let u = c as u32;
    &&& u > 0x20
    &&& u != 0x22
    &&& u != 0x28
    &&& u != 0x29
    &&& u != 0x2c
    &&& u != 0x2e
    &&& !(0x3a <= u && u <= 0x3c)
    &&& u != 0x3e
    &&& u != 0x40
    &&& !(0x5b <= u && u <= 0x5d)
    &&& !(0x7f <= u && u <= 0xff)
}

/// A character that may stand unescaped inside a quoted word: anything but
/// carriage return, the quote, the backslash and U+0080 to U+00FF.
pub open spec fn qtext_char(c: char) -> bool {
    let u = c as u32;
    u != 0x0d && u != 0x22 && u != 0x5c && !(0x80 <= u && u <= 0xff)
}

/// A character that may stand unescaped inside a bracketed domain literal:
/// anything but carriage return, `[`, `\`, `]` and U+0080 to U+00FF.
pub open spec fn dtext_char(c: char) -> bool {
    let u = c as u32;
    u != 0x0d && !(0x5b <= u && u <= 0x5d) && !(0x80 <= u && u <= 0xff)
}

/// A character a backslash may escape: any 7-bit character.
pub open spec fn escapable_char(c: char) -> bool {
    (c as u32) <= 0x7f
}

/// Number of consecutive atom characters at position `i`.
pub open spec fn scan_atom(s: Seq<char>, i: nat) -> nat
    decreases s.len() - i,
{
    if i < s.len() && atom_char(s[i as int]) {
        1 + scan_atom(s, i + 1)
    } else {
        0
    }
}

/// Characters consumed by the body of a quoted word starting at `i` (just
/// after the opening quote), including the closing quote; `None` when the
/// body never closes.
pub open spec fn scan_quoted_body(s: Seq<char>, i: nat) -> Option<nat>
    decreases s.len() - i,
{
    if i >= s.len() {
        None
    } else if s[i as int] == '"' {
        Some(1nat)
    } else if s[i as int] == '\\' {
        if i + 1 < s.len() && escapable_char(s[i as int + 1]) {
            match scan_quoted_body(s, i + 2) {
                Some(n) => Some(n + 2),
                None => None,
            }
        } else {
            None
        }
    } else if qtext_char(s[i as int]) {
        match scan_quoted_body(s, i + 1) {
            Some(n) => Some(n + 1),
            None => None,
        }
    } else {
        None
    }
}

/// Characters consumed by the body of a bracketed literal starting at `i`
/// (just after the opening bracket), including the closing bracket.
pub open spec fn scan_bracket_body(s: Seq<char>, i: nat) -> Option<nat>
    decreases s.len() - i,
{
    if i >= s.len() {
        None
    } else if s[i as int] == ']' {
        Some(1nat)
    } else if s[i as int] == '\\' {
        if i + 1 < s.len() && escapable_char(s[i as int + 1]) {
            match scan_bracket_body(s, i + 2) {
                Some(n) => Some(n + 2),
                None => None,
            }
        } else {
            None
        }
    } else if dtext_char(s[i as int]) {
        match scan_bracket_body(s, i + 1) {
            Some(n) => Some(n + 1),
            None => None,
        }
    } else {
        None
    }
}

/// Characters consumed by one local-part word at `i`: a quoted word when it
/// opens with a quote, else a non-empty atom.
pub open spec fn scan_local_word(s: Seq<char>, i: nat) -> Option<nat> {
    if i < s.len() && s[i as int] == '"' {
        match scan_quoted_body(s, i + 1) {
            Some(n) => Some(n + 1),
            None => None,
        }
    } else {
        let n = scan_atom(s, i);
        if n > 0 {
            Some(n)
        } else {
            None
        }
    }
}

/// Characters consumed by one domain word at `i`: a bracketed literal when
/// it opens with a bracket, else a non-empty atom.
pub open spec fn scan_domain_word(s: Seq<char>, i: nat) -> Option<nat> {
    if i < s.len() && s[i as int] == '[' {
        match scan_bracket_body(s, i + 1) {
            Some(n) => Some(n + 1),
            None => None,
        }
    } else {
        let n = scan_atom(s, i);
        if n > 0 {
            Some(n)
        } else {
            None
        }
    }
}

/// A word never consumes past the end of the sequence.
pub proof fn lemma_scan_bounds(s: Seq<char>, i: nat)
    requires
        i <= s.len(),
    ensures
        i + scan_atom(s, i) <= s.len(),
        scan_quoted_body(s, i) matches Some(n) ==> i + n <= s.len() && n >= 1,
        scan_bracket_body(s, i) matches Some(n) ==> i + n <= s.len() && n >= 1,
    decreases s.len() - i,
{
    if i < s.len() {
        lemma_scan_bounds(s, i + 1);
        if i + 1 < s.len() {
            lemma_scan_bounds(s, i + 2);
        }
    }
}

/// Characters consumed by a dot-separated run of local-part words at `i`.
pub open spec fn scan_local(s: Seq<char>, i: nat) -> Option<nat>
    decreases s.len() - i,
{
    match scan_local_word(s, i) {
        None => None,
        Some(n) => {
            if i + n < s.len() && s[(i + n) as int] == '.' {
                if i + n + 1 <= s.len() {
                    match scan_local(s, (i + n + 1) as nat) {
                        Some(m) => Some(n + 1 + m),
                        None => None,
                    }
                } else {
                    None
                }
            } else {
                Some(n)
            }
        },
    }
}

/// Characters consumed by a dot-separated run of domain words at `i`.
pub open spec fn scan_domain(s: Seq<char>, i: nat) -> Option<nat>
    decreases s.len() - i,
{
    match scan_domain_word(s, i) {
        None => None,
        Some(n) => {
            if i + n < s.len() && s[(i + n) as int] == '.' {
                if i + n + 1 <= s.len() {
                    match scan_domain(s, (i + n + 1) as nat) {
                        Some(m) => Some(n + 1 + m),
                        None => None,
                    }
                } else {
                    None
                }
            } else {
                Some(n)
            }
        },
    }
}

/// The email grammar: a local part, one `@`, and a domain that reaches the
/// end of the string.
pub open spec fn email_valid(s: Seq<char>) -> bool {
    match scan_local(s, 0) {
        None => false,
        Some(n) => {
            &&& n < s.len()
            &&& s[n as int] == '@'
            &&& match scan_domain(s, n + 1) {
                Some(m) => n + 1 + m == s.len(),
                None => false,
            }
        },
    }
}

/// An email address whose grammar was checked when it was built, unless it
/// came through `from_unchecked`.
pub struct Email(pub String);

impl View for Email {
    type V = Seq<char>;

    open spec fn view(&self) -> Seq<char> {
        self.0@
    }
}

fn atom_char_exec(c: char) -> (r: bool)
    ensures
        r == atom_char(c),
{
    let u = c as u32;
    u > 0x20 && u != 0x22 && u != 0x28 && u != 0x29 && u != 0x2c && u != 0x2e && !(0x3a <= u && u
        <= 0x3c) && u != 0x3e && u != 0x40 && !(0x5b <= u && u <= 0x5d) && !(0x7f <= u && u
        <= 0xff)
}

fn scan_atom_exec(s: &Vec<char>, i: usize) -> (r: usize)
    requires
        i <= s@.len(),
    ensures
        r == scan_atom(s@, i as nat),
        i + r <= s@.len(),
    decreases s@.len() - i,
{
    proof {
        lemma_scan_bounds(s@, i as nat);
    }
    if i < s.len() && atom_char_exec(s[i]) {
        1 + scan_atom_exec(s, i + 1)
    } else {
        0
    }
}

fn scan_quoted_body_exec(s: &Vec<char>, i: usize) -> (r: Option<usize>)
    requires
        i <= s@.len(),
    ensures
        r is Some <==> scan_quoted_body(s@, i as nat) is Some,
        r matches Some(n) ==> scan_quoted_body(s@, i as nat) == Some(n as nat) && i + n <= s@.len()
            && n >= 1,
    decreases s@.len() - i,
{
    proof {
        lemma_scan_bounds(s@, i as nat);
    }
    if i >= s.len() {
        None
    } else if s[i] == '"' {
        Some(1)
    } else if s[i] == '\\' {
        if i + 1 < s.len() && (s[i + 1] as u32) <= 0x7f {
            match scan_quoted_body_exec(s, i + 2) {
                Some(n) => Some(n + 2),
                None => None,
            }
        } else {
            None
        }
    } else {
        let u = s[i] as u32;
        if u != 0x0d && u != 0x22 && u != 0x5c && !(0x80 <= u && u <= 0xff) {
            match scan_quoted_body_exec(s, i + 1) {
                Some(n) => Some(n + 1),
                None => None,
            }
        } else {
            None
        }
    }
}

fn scan_bracket_body_exec(s: &Vec<char>, i: usize) -> (r: Option<usize>)
    requires
        i <= s@.len(),
    ensures
        r is Some <==> scan_bracket_body(s@, i as nat) is Some,
        r matches Some(n) ==> scan_bracket_body(s@, i as nat) == Some(n as nat) && i + n
            <= s@.len() && n >= 1,
    decreases s@.len() - i,
{
    proof {
        lemma_scan_bounds(s@, i as nat);
    }
    if i >= s.len() {
        None
    } else if s[i] == ']' {
        Some(1)
    } else if s[i] == '\\' {
        if i + 1 < s.len() && (s[i + 1] as u32) <= 0x7f {
            match scan_bracket_body_exec(s, i + 2) {
                Some(n) => Some(n + 2),
                None => None,
            }
        } else {
            None
        }
    } else {
        let u = s[i] as u32;
        if u != 0x0d && !(0x5b <= u && u <= 0x5d) && !(0x80 <= u && u <= 0xff) {
            match scan_bracket_body_exec(s, i + 1) {
                Some(n) => Some(n + 1),
                None => None,
            }
        } else {
            None
        }
    }
}

fn scan_local_exec(s: &Vec<char>, i: usize) -> (r: Option<usize>)
    requires
        i <= s@.len(),
    ensures
        r is Some <==> scan_local(s@, i as nat) is Some,
        r matches Some(n) ==> scan_local(s@, i as nat) == Some(n as nat) && i + n <= s@.len(),
    decreases s@.len() - i,
{
    let word = if i < s.len() && s[i] == '"' {
        match scan_quoted_body_exec(s, i + 1) {
            Some(n) => Some(n + 1),
            None => None,
        }
    } else {
        let n = scan_atom_exec(s, i);
        if n > 0 {
            Some(n)
        } else {
            None
        }
    };
    match word {
        None => None,
        Some(n) => {
            if i + n < s.len() && s[i + n] == '.' {
                match scan_local_exec(s, i + n + 1) {
                    Some(m) => Some(n + 1 + m),
                    None => None,
                }
            } else {
                Some(n)
            }
        },
    }
}

fn scan_domain_exec(s: &Vec<char>, i: usize) -> (r: Option<usize>)
    requires
        i <= s@.len(),
    ensures
        r is Some <==> scan_domain(s@, i as nat) is Some,
        r matches Some(n) ==> scan_domain(s@, i as nat) == Some(n as nat) && i + n <= s@.len(),
    decreases s@.len() - i,
{
    let word = if i < s.len() && s[i] == '[' {
        match scan_bracket_body_exec(s, i + 1) {
            Some(n) => Some(n + 1),
            None => None,
        }
    } else {
        let n = scan_atom_exec(s, i);
        if n > 0 {
            Some(n)
        } else {
            None
        }
    };
    match word {
        None => None,
        Some(n) => {
            if i + n < s.len() && s[i + n] == '.' {
                match scan_domain_exec(s, i + n + 1) {
                    Some(m) => Some(n + 1 + m),
                    None => None,
                }
            } else {
                Some(n)
            }
        },
    }
}

impl Parser for Email {
    open spec fn spec_valid(data: Seq<char>) -> bool {
        email_valid(data)
    }

    fn valid(data: &str) -> (r: bool) {
        let s = chars_of_str(data);
        match scan_local_exec(&s, 0) {
            None => false,
            Some(n) => {
                if n < s.len() && s[n] == '@' {
                    match scan_domain_exec(&s, n + 1) {
                        Some(m) => n + 1 + m == s.len(),
                        None => false,
                    }
                } else {
                    false
                }
            },
        }
    }

    fn from_unchecked(data: &str) -> (r: Self) {
        Email(data.to_owned())
    }
}

impl Email {
    /// Builds an address when the grammar holds, and rejects the string
    /// otherwise.
    pub fn new(email: &str) -> (r: Option<Self>)
        ensures
            r is Some <==> email_valid(email@),
            r is Some ==> r->0@ == email@,
    {
        if Self::valid(email) {
            Some(Email(email.to_owned()))
        } else {
            None
        }
    }
}

} // verus!
