//! Signed claim tokens: the data model, the signature engine and its
//! validation policy.

pub mod base64;
pub mod jwt;

use vstd::prelude::*;
use vstd::string::StringSliceAdditionalSpecFns;

verus! {

/// A point in time, in whole seconds since the Unix epoch.
#[derive(Debug, Clone, Copy, PartialEq, Eq, Structural)]
pub struct DateTimeUtc(pub i64);

/// Relies on chrono::Utc::now and DateTime::timestamp: seconds since the
/// Unix epoch at the moment of the call. The bound follows from chrono's
/// documented datetime range of about plus or minus 262000 years.
#[verifier::external_body]
fn now_unix_seconds() -> (r: i64)
    ensures
        -9000000000000 <= r <= 9000000000000,
{
    chrono::Utc::now().timestamp()
}

impl DateTimeUtc {
    /// The current time.
    pub fn now() -> (r: Self)
        ensures
            -9000000000000 <= r.0 <= 9000000000000,
    {
        DateTimeUtc(now_unix_seconds())
    }

    /// The current time plus fifteen minutes.
    pub fn now_add_15min() -> (r: Self)
        ensures
            -9000000000000 <= r.0 <= 9000000000000 + 900,
    {
        DateTimeUtc(now_unix_seconds() + 900)
    }

    /// The current time plus one hour.
    pub fn now_add_1hour() -> (r: Self)
        ensures
            -9000000000000 <= r.0 <= 9000000000000 + 3600,
    {
        DateTimeUtc(now_unix_seconds() + 3600)
    }
}

/// Why a token could not be produced or accepted.
#[derive(Debug, Clone, Copy, PartialEq, Eq, Structural)]
pub enum TokenError {
    /// No signing secret is configured.
    MissingSecret,
    /// A configured secret carried the base64 marker but was not valid
    /// base64.
    InvalidSecret,
    /// A claim key that names a standard field was handed to the builder.
    ReservedClaimName,
    /// The wire format could not be read back into claims.
    MalformedToken,
    /// A required claim is absent.
    MissingClaim,
    /// The signature does not match the payload.
    SignatureMismatch,
    /// The expiration time has passed.
    Expired,
    /// The not-before time has not been reached.
    NotYetValid,
    /// No required issuer appears in the token.
    IssuerRejected,
    /// No required audience appears in the token.
    AudienceRejected,
}

/// What `decode` checks after the signature: expiration and not-before
/// unless disabled, and set intersection with the required issuers and
/// audiences when they are configured.
#[derive(Debug, Clone, PartialEq)]
pub struct Validation {
    /// Accepted issuers; at least one must appear in the token.
    pub iss: Option<Vec<String>>,
    /// Accepted audiences; at least one must appear in the token.
    pub aud: Option<Vec<String>>,
    /// Check the expiration time.
    pub validate_exp: bool,
    /// Check the not-before time.
    pub validate_nbf: bool,
}

impl Validation {
    /// The default policy: time checks on, no issuer or audience
    /// requirement.
    pub fn new() -> (r: Self)
        ensures
            r.iss is None,
            r.aud is None,
            r.validate_exp,
            r.validate_nbf,
    {
        Validation { iss: None, aud: None, validate_exp: true, validate_nbf: true }
    }

    /// Requires at least one of the given issuers.
    pub fn set_issuer(&mut self, issuers: Vec<String>)
        ensures
            final(self).iss == Some(issuers),
            final(self).aud == old(self).aud,
            final(self).validate_exp == old(self).validate_exp,
            final(self).validate_nbf == old(self).validate_nbf,
    {
        self.iss = Some(issuers);
    }

    /// Requires at least one of the given audiences.
    pub fn set_audience(&mut self, audiences: Vec<String>)
        ensures
            final(self).aud == Some(audiences),
            final(self).iss == old(self).iss,
            final(self).validate_exp == old(self).validate_exp,
            final(self).validate_nbf == old(self).validate_nbf,
    {
        self.aud = Some(audiences);
    }
}

impl Default for Validation {
    fn default() -> (r: Self)
        ensures
            r.iss is None,
            r.aud is None,
            r.validate_exp,
            r.validate_nbf,
    {
        Validation::new()
    }
}

/// The resolved signing key of a signature engine. Built once from the
/// configured secret; a secret opening with the `base64:` marker is
/// decoded as standard base64, any other secret is used byte for byte.
pub struct SigningConfig {
    key: Option<Vec<u8>>,
}

/// The marker bytes `base64:`.
pub open spec fn base64_marker() -> Seq<u8> {
    seq![98u8, 97u8, 115u8, 101u8, 54u8, 52u8, 58u8]
}

/// The key bytes a configured secret resolves to, if it resolves.
pub open spec fn spec_resolve_secret(secret: Seq<u8>) -> Option<Seq<u8>> {
    if secret.len() >= 7 && secret.subrange(0, 7) == base64_marker() {
        crate::token::base64::b64_decode(secret.skip(7), false)
    } else {
        Some(secret)
    }
}

impl SigningConfig {
    /// The key this engine signs with, if one is configured.
    pub closed spec fn spec_key(&self) -> Option<Seq<u8>> {
        match self.key {
            Some(ref k) => Some(k@),
            None => None,
        }
    }

    /// An engine with no secret configured: `encode` and `decode` fail
    /// with `MissingSecret`.
    pub fn unconfigured() -> (r: Self)
        ensures
            r.spec_key() is None,
    {
        SigningConfig { key: None }
    }

    /// Resolves a configured secret. Fails with `InvalidSecret` when the
    /// base64 marker is present but the rest is not canonical base64.
    pub fn from_secret(secret: &str) -> (r: Result<Self, TokenError>)
        ensures
            r is Ok <==> spec_resolve_secret(secret.spec_bytes()) is Some,
            r matches Ok(c) ==> c.spec_key() == spec_resolve_secret(secret.spec_bytes()),
            r is Err ==> r->Err_0 == TokenError::InvalidSecret,
    {
        let bytes = secret.as_bytes_vec();
        let marked = bytes.len() >= 7 && bytes[0] == 98 && bytes[1] == 97 && bytes[2] == 115
            && bytes[3] == 101 && bytes[4] == 54 && bytes[5] == 52 && bytes[6] == 58;
        proof {
            if bytes@.len() >= 7 {
                assert(bytes@.subrange(0, 7) =~= base64_marker() <==> (bytes@[0] == 98
                    && bytes@[1] == 97 && bytes@[2] == 115 && bytes@[3] == 101 && bytes@[4] == 54
                    && bytes@[5] == 52 && bytes@[6] == 58)) by {
                    if bytes@[0] == 98 && bytes@[1] == 97 && bytes@[2] == 115 && bytes@[3] == 101
                        && bytes@[4] == 54 && bytes@[5] == 52 && bytes@[6] == 58 {
                        assert(bytes@.subrange(0, 7) =~= base64_marker());
                    } else {
                        if bytes@.subrange(0, 7) =~= base64_marker() {
                            assert(bytes@[0] == bytes@.subrange(0, 7)[0]);
                            assert(bytes@[1] == bytes@.subrange(0, 7)[1]);
                            assert(bytes@[2] == bytes@.subrange(0, 7)[2]);
                            assert(bytes@[3] == bytes@.subrange(0, 7)[3]);
                            assert(bytes@[4] == bytes@.subrange(0, 7)[4]);
                            assert(bytes@[5] == bytes@.subrange(0, 7)[5]);
                            assert(bytes@[6] == bytes@.subrange(0, 7)[6]);
                        }
                    }
                }
            }
        }
        if marked {
            let mut rest: Vec<u8> = Vec::new();
            let mut k: usize = 7;
            while k < bytes.len()
                invariant
                    7 <= k <= bytes@.len(),
                    bytes@.len() >= 7,
                    rest@ =~= bytes@.subrange(7, k as int),
                decreases bytes@.len() - k,
            {
                rest.push(bytes[k]);
                proof {
                    assert(rest@ =~= bytes@.subrange(7, k as int + 1));
                }
                k += 1;
            }
            proof {
                assert(rest@ =~= bytes@.skip(7));
            }
            match crate::token::base64::b64_decode_exec(&rest, false) {
                Some(keybytes) => Ok(SigningConfig { key: Some(keybytes) }),
                None => Err(TokenError::InvalidSecret),
            }
        } else {
            Ok(SigningConfig { key: Some(bytes) })
        }
    }

    /// Resolves an optionally configured secret: absence is not an error
    /// here, only at signing time.
    pub fn new(secret: Option<&str>) -> (r: Result<Self, TokenError>)
        ensures
            r matches Ok(c) ==> (match secret {
                Some(s) => c.spec_key() == spec_resolve_secret(s.spec_bytes()),
                None => c.spec_key() is None,
            }),
            r is Err ==> r->Err_0 == TokenError::InvalidSecret,
            secret is None ==> r is Ok,
            secret matches Some(s) ==> (r is Ok <==> spec_resolve_secret(s.spec_bytes()) is Some),
    {
        match secret {
            Some(s) => Self::from_secret(s),
            None => Ok(Self::unconfigured()),
        }
    }

    /// The key bytes, for the signing primitives.
    pub(crate) fn key_bytes(&self) -> (r: Option<&Vec<u8>>)
        ensures
            r is Some <==> self.spec_key() is Some,
            r matches Some(k) ==> Some(k@) == self.spec_key(),
    {
        match &self.key {
            Some(k) => Some(k),
            None => None,
        }
    }
}

/// A validation policy as the surrounding application hands it to its
/// request extractor.
#[derive(Debug, Clone, PartialEq)]
pub struct JwtValidator(pub Validation);

/// The shape of the signature engine: encode claims into a compact signed
/// token, and decode such a token back under a validation policy.
pub trait TokenGenerator: Sized {
    /// Signs the claims into a compact token.
    fn encode(&self, config: &SigningConfig) -> Result<String, TokenError>;

    /// Reads a compact token back, verifying its signature and the policy.
    fn decode(token: &str, validation: &Validation, config: &SigningConfig) -> Option<Self>;
}

} // verus!
