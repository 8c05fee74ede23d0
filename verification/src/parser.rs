//! Validate-on-construct wrappers for user-supplied credential values.

pub mod email;
pub mod id;
pub mod otp;
pub mod password;
pub mod username;

use vstd::prelude::*;

verus! {

/// The shape every credential parser shares: a grammar (`spec_valid`), an
/// executable check for it (`valid`), and an escape hatch (`from_unchecked`)
/// that wraps a string with no validation and must only be used on data that
/// was validated before it was stored.
pub trait Parser: Sized + View<V = Seq<char>> {
    /// The grammar this credential enforces.
    spec fn spec_valid(data: Seq<char>) -> bool;

    /// Decides the grammar.
    fn valid(data: &str) -> (r: bool)
        ensures
            r == Self::spec_valid(data@),
    ;

    /// Wraps a string without checking it.
    fn from_unchecked(data: &str) -> (r: Self)
        ensures
            r@ == data@,
    ;
}

} // verus!
