//! Password grammar and one-way hashing.

use crate::parser::Parser;
use argon2::password_hash::{PasswordHash, PasswordHasher, PasswordVerifier, SaltString};
use vstd::prelude::*;

verus! {

/// Why a stored hash could not be checked.
#[derive(Debug, Clone, Copy, PartialEq, Eq, Structural)]
pub enum HashError {
    /// The hashing call itself reported a failure.
    HashingFailed,
    /// The stored hash string is not a parseable hash encoding.
    HashFormatError,
}

/// Whether the memory-hard hash encoded in `hash` matches `password`:
/// what the verifier recomputes from the salt and parameters carried in
/// the hash string. A pure function of the two arguments.
pub uninterp spec fn argon2_matches(password: Seq<u8>, hash: Seq<char>) -> bool;

/// Whether `hash` is a parseable hash encoding. A pure function of the
/// string.
pub uninterp spec fn phc_parses(hash: Seq<char>) -> bool;

/// Relies on argon2::Argon2::hash_password with a fresh random salt from
/// the operating system: on success the returned self-describing hash
/// string verifies against the same password, as the crate recomputes the
/// digest from the salt and parameters stored in the string.
#[verifier::external_body]
fn argon2_hash(password: &Vec<u8>) -> (r: Result<String, ()>)
    ensures
        r matches Ok(h) ==> argon2_matches(password@, h@) && phc_parses(h@),
{
    let salt = SaltString::generate(&mut rand_core::OsRng);
    match argon2::Argon2::default().hash_password(password.as_slice(), &salt) {
        Ok(h) => Ok(h.to_string()),
        Err(_) => Err(()),
    }
}

/// Relies on argon2::password_hash::PasswordHash::new and
/// argon2::Argon2::verify_password: the first parses the self-describing
/// hash string, the second recomputes the digest and compares; both are
/// functions of their arguments alone.
#[verifier::external_body]
fn argon2_verify(password: &Vec<u8>, hash: &str) -> (r: Result<bool, ()>)
    ensures
        r is Ok <==> phc_parses(hash@),
        r matches Ok(m) ==> m == argon2_matches(password@, hash@),
{
    match PasswordHash::new(hash) {
        Ok(parsed) => Ok(
            argon2::Argon2::default().verify_password(password.as_slice(), &parsed).is_ok(),
        ),
        Err(_) => Err(()),
    }
}

/// Shortest password accepted.
pub const PASSWORD_MIN_LENGTH: usize = 8;

/// Longest password accepted.
pub const PASSWORD_MAX_LENGTH: usize = 128;

/// An uppercase letter. The policy reads "uppercase" as the ASCII range
/// A to Z: an uppercase letter outside ASCII does not satisfy the
/// uppercase requirement, though it does count as a special character.
pub open spec fn uppercase_char(c: char) -> bool {
    'A' <= c && c <= 'Z'
}

/// A character that counts towards the "special" requirement: anything that
/// is not an ASCII letter or digit. Whitespace and every non-ASCII character
/// qualify.
pub open spec fn special_char(c: char) -> bool {
    !(('a' <= c && c <= 'z') || ('A' <= c && c <= 'Z') || ('0' <= c && c <= '9'))
}

/// The password policy: 8 to 128 characters (counted as characters, not
/// bytes), at least one ASCII uppercase letter and at least one special
/// character.
pub open spec fn password_valid(data: Seq<char>) -> bool {
    &&& PASSWORD_MIN_LENGTH <= data.len() <= PASSWORD_MAX_LENGTH
    &&& exists|i: int| 0 <= i < data.len() && uppercase_char(#[trigger] data[i])
    &&& exists|i: int| 0 <= i < data.len() && special_char(#[trigger] data[i])
}

/// A password whose policy was checked when it was built, unless it came
/// through `from_unchecked`. The raw value is private: it leaves this module
/// only as a hash.
pub struct Password(String);

impl View for Password {
    type V = Seq<char>;

    closed spec fn view(&self) -> Seq<char> {
        self.0@
    }
}

impl Parser for Password {
    open spec fn spec_valid(data: Seq<char>) -> bool {
        password_valid(data)
    }

    fn valid(data: &str) -> (r: bool) {
        let len = data.unicode_len();
        if len < PASSWORD_MIN_LENGTH || len > PASSWORD_MAX_LENGTH {
            return false;
        }
        let mut has_uppercase = false;
        let mut has_special = false;
        let mut i: usize = 0;
        while i < len
            invariant
                i <= len,
                len == data@.len(),
                PASSWORD_MIN_LENGTH <= len <= PASSWORD_MAX_LENGTH,
                has_uppercase <==> exists|j: int|
                    0 <= j < i && uppercase_char(#[trigger] data@[j]),
                has_special <==> exists|j: int| 0 <= j < i && special_char(#[trigger] data@[j]),
            decreases len - i,
        {
            if has_uppercase && has_special {
                return true;
            }
            let c = data.get_char(i);
            if 'A' <= c && c <= 'Z' {
                has_uppercase = true;
            }
            if !(('a' <= c && c <= 'z') || ('A' <= c && c <= 'Z') || ('0' <= c && c <= '9')) {
                has_special = true;
            }
            i += 1;
        }
        has_uppercase && has_special
    }

    fn from_unchecked(data: &str) -> (r: Self) {
        Password(data.to_owned())
    }
}

impl Password {
    /// Builds a password when the policy holds, and rejects the string
    /// otherwise.
    pub fn new(data: &str) -> (r: Option<Self>)
        ensures
            r is Some <==> password_valid(data@),
            r is Some ==> r->0@ == data@,
    {
        if Self::valid(data) {
            Some(Password(data.to_owned()))
        } else {
            None
        }
    }

    /// Consumes the password and hashes it with a fresh random salt,
    /// enforcing single use of the plaintext. On success the returned
    /// hash string verifies against this password.
    pub fn to_argon2_hash(self) -> (r: Result<String, HashError>)
        ensures
            r matches Ok(h) ==> argon2_matches(
                vstd::utf8::encode_utf8(self@),
                h@,
            ) && phc_parses(h@),
            r is Err ==> r->Err_0 == HashError::HashingFailed,
    {
        let bytes = self.0.as_str().as_bytes_vec();
        match argon2_hash(&bytes) {
            Ok(h) => Ok(h),
            Err(_) => Err(HashError::HashingFailed),
        }
    }

    /// Checks this password against a stored hash string. A mismatched
    /// password is a plain `false`; an unparseable hash string is the
    /// distinct `HashFormatError`.
    pub fn verify_password(&self, hash: &str) -> (r: Result<bool, HashError>)
        ensures
            r is Ok <==> phc_parses(hash@),
            r matches Ok(m) ==> m == argon2_matches(vstd::utf8::encode_utf8(self@), hash@),
            r is Err ==> r->Err_0 == HashError::HashFormatError,
    {
        let bytes = self.0.as_str().as_bytes_vec();
        match argon2_verify(&bytes, hash) {
            Ok(m) => Ok(m),
            Err(_) => Err(HashError::HashFormatError),
        }
    }
}

} // verus!
