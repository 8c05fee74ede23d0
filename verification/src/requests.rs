//! The plain request shapes the surrounding application reads from its
//! transport and hands to the library.

use crate::parser::email::Email;
use crate::parser::password::Password;
use vstd::prelude::*;

verus! {

/// A login attempt: the address and password as validated values.
pub struct LoginRequest {
    /// Address of the account.
    pub email: Email,
    /// Password to check.
    pub password: Password,
}

/// An account creation: display name plus validated credentials.
pub struct SignupRequest {
    /// Display name.
    pub name: String,
    /// Address of the account.
    pub email: Email,
    /// Password to store as a hash.
    pub password: Password,
}

/// A domain registration.
pub struct CreateDomainRequest {
    /// Domain name.
    pub name: String,
    /// Where to send the user back.
    pub redirect_uri: String,
}

} // verus!
