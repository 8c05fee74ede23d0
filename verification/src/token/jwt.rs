//! The claim set, its fluent builder, and the signature engine that turns
//! it into a compact signed token and back.

use crate::json::{
    deep_view_fields, deep_view_seq, lemma_deep_view_fields_index, lemma_deep_view_fields_len,
    lemma_deep_view_seq_index, lemma_deep_view_seq_len, parse_json, parse_json_exec, ser_value,
    wf_json, JsonValue, SpecJson,
};
use crate::strutil::{
    all_ascii_bytes, bytes_of_ascii_chars, bytes_of_chars, chars_of_bytes, chars_of_str,
    lemma_ascii_round_trip, string_of_ascii_bytes,
};
use crate::token::base64::{
    b64_decode, b64_decode_exec, b64_encode, b64_encode_exec, lemma_b64_encode_bytes,
    lemma_b64_round_trip,
};
use crate::token::{DateTimeUtc, SigningConfig, TokenError, TokenGenerator, Validation};
use vstd::prelude::*;
use vstd::string::StringSliceAdditionalSpecFns;

verus! {

/// The base64url text of the HMAC-SHA256 tag that the holder of `key`
/// computes over `message`. A pure function of the two arguments; nothing
/// else about the value is assumed here.
pub uninterp spec fn hs256_signature(key: Seq<u8>, message: Seq<u8>) -> Seq<u8>;

/// Relies on jsonwebtoken::crypto::sign with algorithm HS256 and a secret
/// key: it returns the base64url (unpadded) text of the HMAC-SHA256 tag,
/// and for these inputs it never fails. Every byte of the returned text is
/// in the URL-safe alphabet, so in particular ASCII and never a dot.
#[verifier::external_body]
fn sign_hs256(key: &Vec<u8>, message: &Vec<u8>) -> (r: Vec<u8>)
    ensures
        r@ == hs256_signature(key@, message@),
        forall|i: int| 0 <= i < r@.len() ==> #[trigger] r@[i] < 128 && r@[i] != 46,
{
    let text = jsonwebtoken::crypto::sign(
        message.as_slice(),
        &jsonwebtoken::EncodingKey::from_secret(key.as_slice()),
        jsonwebtoken::Algorithm::HS256,
    ).unwrap();
    text.into_bytes()
}

/// Compares two byte strings in constant time for equal lengths: the
/// running time depends on the lengths alone, never on where they differ.
pub fn ct_eq(a: &Vec<u8>, b: &Vec<u8>) -> (r: bool)
    ensures
        r == (a@ == b@),
{
    if a.len() != b.len() {
        proof {
            assert(a@.len() != b@.len());
        }
        return false;
    }
    let mut diff: u8 = 0;
    let mut i: usize = 0;
    while i < a.len()
        invariant
            i <= a@.len(),
            a@.len() == b@.len(),
            diff == 0 <==> (forall|j: int| 0 <= j < i ==> a@[j] == #[trigger] b@[j]),
        decreases a@.len() - i,
    {
        let av = a[i];
        let bv = b[i];
        let x = av ^ bv;
        proof {
            assert(x == 0 <==> av == bv) by (bit_vector)
                requires
                    x == av ^ bv,
            ;
            assert((diff | x) == 0 <==> diff == 0 && x == 0) by (bit_vector);
        }
        diff = diff | x;
        i += 1;
    }
    proof {
        if diff == 0 {
            assert(a@ =~= b@);
        }
    }
    diff == 0
}

/// The canonical header: the algorithm and token type, serialized once
/// and for all.
pub open spec fn spec_header_bytes() -> Seq<u8> {
    seq![
        123u8, 34u8, 97u8, 108u8, 103u8, 34u8, 58u8, 34u8, 72u8, 83u8, 50u8, 53u8, 54u8, 34u8,
        44u8, 34u8, 116u8, 121u8, 112u8, 34u8, 58u8, 34u8, 74u8, 87u8, 84u8, 34u8, 125u8,
    ]
}

/// The canonical header, as bytes.
fn header_bytes() -> (r: Vec<u8>)
    ensures
        r@ == spec_header_bytes(),
{
    let v: Vec<u8> = vec![
        123, 34, 97, 108, 103, 34, 58, 34, 72, 83, 50, 53, 54, 34, 44, 34, 116, 121, 112, 34, 58,
        34, 74, 87, 84, 34, 125,
    ];
    proof {
        assert(v@ =~= spec_header_bytes());
    }
    v
}

/// The payload of a signed token, under construction or reconstructed by
/// `decode`: the standard claims and the custom ones.
#[derive(Debug, PartialEq)]
pub struct JwtBuilder {
    /// Issuers of the token.
    pub iss: Option<Vec<String>>,
    /// The identity the token represents.
    pub sub: Option<String>,
    /// Intended consumers of the token.
    pub aud: Option<Vec<String>>,
    /// Expiration time.
    pub exp: Option<DateTimeUtc>,
    /// Not valid before this time.
    pub nbf: Option<DateTimeUtc>,
    /// Time of issue.
    pub iat: Option<DateTimeUtc>,
    /// Anti-replay handle.
    pub jti: Option<String>,
    /// Custom claims, in insertion order, keyed uniquely and never by a
    /// standard field name.
    pub custom: Vec<(String, JsonValue)>,
}

/// The spec-level image of a claim set.
pub struct SpecClaims {
    /// Issuers of the token.
    pub iss: Option<Seq<Seq<char>>>,
    /// The identity the token represents.
    pub sub: Option<Seq<char>>,
    /// Intended consumers of the token.
    pub aud: Option<Seq<Seq<char>>>,
    /// Expiration time.
    pub exp: Option<int>,
    /// Not valid before this time.
    pub nbf: Option<int>,
    /// Time of issue.
    pub iat: Option<int>,
    /// Anti-replay handle.
    pub jti: Option<Seq<char>>,
    /// Custom claims in order.
    pub custom: Seq<(Seq<char>, SpecJson)>,
}

impl View for JwtBuilder {
    type V = SpecClaims;

    open spec fn view(&self) -> SpecClaims {
        SpecClaims {
            iss: match self.iss {
                Some(ref v) => Some(v.deep_view()),
                None => None,
            },
            sub: match self.sub {
                Some(ref s) => Some(s@),
                None => None,
            },
            aud: match self.aud {
                Some(ref v) => Some(v.deep_view()),
                None => None,
            },
            exp: match self.exp {
                Some(t) => Some(t.0 as int),
                None => None,
            },
            nbf: match self.nbf {
                Some(t) => Some(t.0 as int),
                None => None,
            },
            iat: match self.iat {
                Some(t) => Some(t.0 as int),
                None => None,
            },
            jti: match self.jti {
                Some(ref s) => Some(s@),
                None => None,
            },
            custom: deep_view_fields(self.custom@),
        }
    }
}

/// The name of a standard claim: a custom claim may not shadow one.
pub open spec fn reserved_key(k: Seq<char>) -> bool {
    ||| k =~= seq!['i', 's', 's']
    ||| k =~= seq!['s', 'u', 'b']
    ||| k =~= seq!['a', 'u', 'd']
    ||| k =~= seq!['e', 'x', 'p']
    ||| k =~= seq!['n', 'b', 'f']
    ||| k =~= seq!['i', 'a', 't']
    ||| k =~= seq!['j', 't', 'i']
}

/// A claim set the engine can carry faithfully: no custom claim shadows a
/// standard field.
pub open spec fn claims_wf(c: SpecClaims) -> bool {
    forall|i: int| 0 <= i < c.custom.len() ==> !reserved_key(#[trigger] c.custom[i].0)
}

/// Strings turned into JSON string values, element by element.
pub open spec fn str_arr(ss: Seq<Seq<char>>) -> Seq<SpecJson> {
    Seq::new(ss.len(), |i: int| SpecJson::Str(ss[i]))
}

/// The flat field list a claim set serializes to: the standard fields
/// that are present, in a fixed order, then the custom claims in their
/// own order.
pub open spec fn claims_fields(c: SpecClaims) -> Seq<(Seq<char>, SpecJson)> {
    (match c.iss {
        Some(v) => seq![(seq!['i', 's', 's'], SpecJson::Arr(str_arr(v)))],
        None => Seq::empty(),
    }) + (match c.sub {
        Some(s) => seq![(seq!['s', 'u', 'b'], SpecJson::Str(s))],
        None => Seq::empty(),
    }) + (match c.aud {
        Some(v) => seq![(seq!['a', 'u', 'd'], SpecJson::Arr(str_arr(v)))],
        None => Seq::empty(),
    }) + (match c.exp {
        Some(t) => seq![(seq!['e', 'x', 'p'], SpecJson::Int(t))],
        None => Seq::empty(),
    }) + (match c.nbf {
        Some(t) => seq![(seq!['n', 'b', 'f'], SpecJson::Int(t))],
        None => Seq::empty(),
    }) + (match c.iat {
        Some(t) => seq![(seq!['i', 'a', 't'], SpecJson::Int(t))],
        None => Seq::empty(),
    }) + (match c.jti {
        Some(s) => seq![(seq!['j', 't', 'i'], SpecJson::Str(s))],
        None => Seq::empty(),
    }) + c.custom
}

/// The payload text of a claim set: its field list as one JSON object.
pub open spec fn spec_payload_chars(c: SpecClaims) -> Seq<char> {
    ser_value(SpecJson::Obj(claims_fields(c)))
}

/// The whole signed token of a claim set under a key: header and payload
/// in base64url, and the signature over everything before it.
pub open spec fn spec_encode(c: SpecClaims, key: Seq<u8>) -> Seq<u8> {
    let h = b64_encode(spec_header_bytes(), true);
    let p = b64_encode(bytes_of_chars(spec_payload_chars(c)), true);
    let msg = h + seq![46u8] + p;
    msg + seq![46u8] + hs256_signature(key, msg)
}

/// Custom claims with one key set to one value: replaced in place where
/// the key exists, appended where it does not.
pub open spec fn upsert_fields(
    fields: Seq<(String, JsonValue)>,
    key: String,
    value: JsonValue,
) -> Seq<(String, JsonValue)>
    decreases fields.len(),
{
    if fields.len() == 0 {
        seq![(key, value)]
    } else if fields[0].0@ == key@ {
        seq![(key, value)] + fields.skip(1)
    } else {
        seq![fields[0]] + upsert_fields(fields.skip(1), key, value)
    }
}

impl JwtBuilder {
    /// An empty claim set issued at `now` that expires fifteen minutes
    /// later.
    pub fn new_at(now: DateTimeUtc) -> (r: Self)
        requires
            now.0 + 900 <= i64::MAX,
        ensures
            r@.iss is None,
            r@.sub is None,
            r@.aud is None,
            r@.exp == Some(now.0 + 900int),
            r@.nbf is None,
            r@.iat == Some(now.0 as int),
            r@.jti is None,
            r@.custom =~= Seq::<(Seq<char>, SpecJson)>::empty(),
    {
        let r = JwtBuilder {
            iss: None,
            sub: None,
            aud: None,
            exp: Some(DateTimeUtc(now.0 + 900)),
            nbf: None,
            iat: Some(now),
            jti: None,
            custom: Vec::new(),
        };
        proof {
            lemma_deep_view_fields_len(r.custom@);
        }
        r
    }

    /// An empty claim set issued now that expires fifteen minutes from
    /// now.
    pub fn new() -> (r: Self)
        ensures
            r@.iss is None,
            r@.sub is None,
            r@.aud is None,
            r@.iat is Some,
            -9000000000000 <= r@.iat->0 <= 9000000000000,
            r@.exp == Some(r@.iat->0 + 900),
            r@.nbf is None,
            r@.jti is None,
            r@.custom =~= Seq::<(Seq<char>, SpecJson)>::empty(),
    {
        Self::new_at(DateTimeUtc::now())
    }

    /// Sets the issuers.
    pub fn iss(self, value: Vec<String>) -> (r: Self)
        ensures
            r@.iss == Some(value.deep_view()),
            r@ == (SpecClaims { iss: r@.iss, ..self@ }),
    {
        JwtBuilder { iss: Some(value), ..self }
    }

    /// Sets the subject.
    pub fn sub(self, value: String) -> (r: Self)
        ensures
            r@.sub == Some(value@),
            r@ == (SpecClaims { sub: r@.sub, ..self@ }),
    {
        JwtBuilder { sub: Some(value), ..self }
    }

    /// Sets the audiences.
    pub fn aud(self, value: Vec<String>) -> (r: Self)
        ensures
            r@.aud == Some(value.deep_view()),
            r@ == (SpecClaims { aud: r@.aud, ..self@ }),
    {
        JwtBuilder { aud: Some(value), ..self }
    }

    /// Sets the expiration time.
    pub fn exp(self, value: DateTimeUtc) -> (r: Self)
        ensures
            r@.exp == Some(value.0 as int),
            r@ == (SpecClaims { exp: r@.exp, ..self@ }),
    {
        JwtBuilder { exp: Some(value), ..self }
    }

    /// Sets the not-before time.
    pub fn nbf(self, value: DateTimeUtc) -> (r: Self)
        ensures
            r@.nbf == Some(value.0 as int),
            r@ == (SpecClaims { nbf: r@.nbf, ..self@ }),
    {
        JwtBuilder { nbf: Some(value), ..self }
    }

    /// Sets the time of issue.
    pub fn iat(self, value: DateTimeUtc) -> (r: Self)
        ensures
            r@.iat == Some(value.0 as int),
            r@ == (SpecClaims { iat: r@.iat, ..self@ }),
    {
        JwtBuilder { iat: Some(value), ..self }
    }

    /// Sets the token id.
    pub fn jti(self, value: String) -> (r: Self)
        ensures
            r@.jti == Some(value@),
            r@ == (SpecClaims { jti: r@.jti, ..self@ }),
    {
        JwtBuilder { jti: Some(value), ..self }
    }
}

/// One custom claim key equals a given three-letter name.
fn key_is(k: &String, lit: &str) -> (r: bool)
    ensures
        r == (k@ == lit@),
{
    let kb = k.as_str().as_bytes_vec();
    let lb = lit.as_bytes_vec();
    let eq = ct_eq(&kb, &lb);
    proof {
        broadcast use vstd::utf8::encode_utf8_decode_utf8;

        if kb@ == lb@ {
            assert(vstd::utf8::decode_utf8(vstd::utf8::encode_utf8(k@)) == k@);
            assert(vstd::utf8::decode_utf8(vstd::utf8::encode_utf8(lit@)) == lit@);
        }
    }
    eq
}

/// The position of the first field with the given key, if any.
fn find_key(fields: &Vec<(String, JsonValue)>, key: &String) -> (r: Option<usize>)
    ensures
        r matches Some(i) ==> i < fields@.len() && fields@[i as int].0@ == key@ && (forall|j: int|
            0 <= j < i ==> #[trigger] fields@[j].0@ != key@),
        r is None ==> forall|j: int| 0 <= j < fields@.len() ==> #[trigger] fields@[j].0@ != key@,
{
    let mut idx: usize = 0;
    while idx < fields.len()
        invariant
            idx <= fields@.len(),
            forall|j: int| 0 <= j < idx ==> #[trigger] fields@[j].0@ != key@,
        decreases fields@.len() - idx,
    {
        if key_is(&fields[idx].0, key.as_str()) {
            return Some(idx);
        }
        idx += 1;
    }
    None
}

impl JwtBuilder {
    /// Adds one custom claim. A key that exists is overwritten in place
    /// (last write wins); a key that names a standard field is rejected.
    pub fn add_custom(self, key: String, value: JsonValue) -> (r: Result<Self, TokenError>)
        ensures
            r is Ok <==> !reserved_key(key@),
            r matches Ok(b) ==> b@ == (SpecClaims {
                custom: deep_view_fields(upsert_fields(self.custom@, key, value)),
                ..self@
            }),
            r is Err ==> r->Err_0 == TokenError::ReservedClaimName,
    {
        proof {
            reveal_strlit("iss");
            reveal_strlit("sub");
            reveal_strlit("aud");
            reveal_strlit("exp");
            reveal_strlit("nbf");
            reveal_strlit("iat");
            reveal_strlit("jti");
            assert("iss"@ =~= seq!['i', 's', 's']);
            assert("sub"@ =~= seq!['s', 'u', 'b']);
            assert("aud"@ =~= seq!['a', 'u', 'd']);
            assert("exp"@ =~= seq!['e', 'x', 'p']);
            assert("nbf"@ =~= seq!['n', 'b', 'f']);
            assert("iat"@ =~= seq!['i', 'a', 't']);
            assert("jti"@ =~= seq!['j', 't', 'i']);
        }
        if key_is(&key, "iss") || key_is(&key, "sub") || key_is(&key, "aud") || key_is(&key, "exp")
            || key_is(&key, "nbf") || key_is(&key, "iat") || key_is(&key, "jti") {
            proof {
                assert(reserved_key(key@));
            }
            return Err(TokenError::ReservedClaimName);
        }
        proof {
            assert(!reserved_key(key@));
        }
        let mut fields = self.custom;
        let rest = JwtBuilder { custom: Vec::new(), ..self };
        let at = find_key(&fields, &key);
        let ghost old_fields = fields@;
        match at {
            Some(idx) => {
                fields.set(idx, (key, value));
                proof {
                    lemma_upsert_found(
                        old_fields,
                        fields@[idx as int].0,
                        fields@[idx as int].1,
                        idx as int,
                    );
                    assert(fields@ =~= old_fields.update(idx as int, fields@[idx as int]));
                }
            },
            None => {
                fields.push((key, value));
                proof {
                    lemma_upsert_missing(
                        old_fields,
                        fields@[old_fields.len() as int].0,
                        fields@[old_fields.len() as int].1,
                    );
                    assert(fields@ =~= old_fields.push(fields@[old_fields.len() as int]));
                }
            },
        }
        Ok(JwtBuilder { custom: fields, ..rest })
    }
}

/// When the key stands at position `i`, an upsert is an update in place.
proof fn lemma_upsert_found(fields: Seq<(String, JsonValue)>, key: String, value: JsonValue, i: int)
    requires
        0 <= i < fields.len(),
        fields[i].0@ == key@,
        forall|j: int| 0 <= j < i ==> #[trigger] fields[j].0@ != key@,
    ensures
        upsert_fields(fields, key, value) =~= fields.update(i, (key, value)),
    decreases fields.len(),
{
    if i == 0 {
        assert(seq![(key, value)] + fields.skip(1) =~= fields.update(0, (key, value)));
    } else {
        lemma_upsert_found(fields.skip(1), key, value, i - 1);
        assert(fields.skip(1)[i - 1] == fields[i]);
        assert forall|j: int| 0 <= j < i - 1 implies #[trigger] fields.skip(1)[j].0@ != key@ by {
            assert(fields.skip(1)[j] == fields[j + 1]);
        }
        assert(seq![fields[0]] + fields.skip(1).update(i - 1, (key, value)) =~= fields.update(
            i,
            (key, value),
        ));
    }
}

/// When the key is absent, an upsert is an append.
proof fn lemma_upsert_missing(fields: Seq<(String, JsonValue)>, key: String, value: JsonValue)
    requires
        forall|j: int| 0 <= j < fields.len() ==> #[trigger] fields[j].0@ != key@,
    ensures
        upsert_fields(fields, key, value) =~= fields.push((key, value)),
    decreases fields.len(),
{
    if fields.len() > 0 {
        lemma_upsert_missing(fields.skip(1), key, value);
        assert forall|j: int|
            0 <= j < fields.skip(1).len() implies #[trigger] fields.skip(1)[j].0@ != key@ by {
            assert(fields.skip(1)[j] == fields[j + 1]);
        }
        assert(seq![fields[0]] + fields.skip(1).push((key, value)) =~= fields.push((key, value)));
    }
}

/// JSON string values built from a vector of strings.
fn str_values(v: &Vec<String>) -> (r: Vec<JsonValue>)
    ensures
        deep_view_seq(r@) =~= str_arr(v.deep_view()),
{
    let mut r: Vec<JsonValue> = Vec::new();
    let mut i: usize = 0;
    proof {
        lemma_deep_view_seq_len(r@);
    }
    while i < v.len()
        invariant
            i <= v@.len(),
            r@.len() == i,
            deep_view_seq(r@) =~= str_arr(v.deep_view()).take(i as int),
        decreases v@.len() - i,
    {
        let ghost old_r = r@;
        r.push(JsonValue::Str(v[i].clone()));
        proof {
            crate::json::lemma_deep_view_seq_push(old_r, r@[i as int]);
            assert(r@ =~= old_r.push(r@[i as int]));
            assert(str_arr(v.deep_view())[i as int] == SpecJson::Str(v@[i as int]@));
            assert(deep_view_seq(r@) =~= str_arr(v.deep_view()).take(i as int + 1));
        }
        i += 1;
    }
    proof {
        assert(str_arr(v.deep_view()).take(v@.len() as int) =~= str_arr(v.deep_view()));
    }
    r
}

/// The standard claims that are present, as a field vector in canonical
/// order: the serialized field list is this vector followed by the custom
/// claims.
#[verifier::rlimit(100)]
fn standard_fields(c: &JwtBuilder) -> (r: Vec<(String, JsonValue)>)
    ensures
        deep_view_fields(r@) + c@.custom =~= claims_fields(c@),
{
    proof {
        reveal_strlit("iss");
        reveal_strlit("sub");
        reveal_strlit("aud");
        reveal_strlit("exp");
        reveal_strlit("nbf");
        reveal_strlit("iat");
        reveal_strlit("jti");
        assert("iss"@ =~= seq!['i', 's', 's']);
        assert("sub"@ =~= seq!['s', 'u', 'b']);
        assert("aud"@ =~= seq!['a', 'u', 'd']);
        assert("exp"@ =~= seq!['e', 'x', 'p']);
        assert("nbf"@ =~= seq!['n', 'b', 'f']);
        assert("iat"@ =~= seq!['i', 'a', 't']);
        assert("jti"@ =~= seq!['j', 't', 'i']);
    }
    let ghost s1: Seq<(Seq<char>, SpecJson)> = match c@.iss {
        Some(v) => seq![(seq!['i', 's', 's'], SpecJson::Arr(str_arr(v)))],
        None => Seq::empty(),
    };
    let ghost s2: Seq<(Seq<char>, SpecJson)> = match c@.sub {
        Some(sv) => seq![(seq!['s', 'u', 'b'], SpecJson::Str(sv))],
        None => Seq::empty(),
    };
    let ghost s3: Seq<(Seq<char>, SpecJson)> = match c@.aud {
        Some(v) => seq![(seq!['a', 'u', 'd'], SpecJson::Arr(str_arr(v)))],
        None => Seq::empty(),
    };
    let ghost s4: Seq<(Seq<char>, SpecJson)> = match c@.exp {
        Some(t) => seq![(seq!['e', 'x', 'p'], SpecJson::Int(t))],
        None => Seq::empty(),
    };
    let ghost s5: Seq<(Seq<char>, SpecJson)> = match c@.nbf {
        Some(t) => seq![(seq!['n', 'b', 'f'], SpecJson::Int(t))],
        None => Seq::empty(),
    };
    let ghost s6: Seq<(Seq<char>, SpecJson)> = match c@.iat {
        Some(t) => seq![(seq!['i', 'a', 't'], SpecJson::Int(t))],
        None => Seq::empty(),
    };
    let ghost s7: Seq<(Seq<char>, SpecJson)> = match c@.jti {
        Some(sv) => seq![(seq!['j', 't', 'i'], SpecJson::Str(sv))],
        None => Seq::empty(),
    };
    proof {
        assert(claims_fields(c@) == s1 + s2 + s3 + s4 + s5 + s6 + s7 + c@.custom);
    }
    let mut r: Vec<(String, JsonValue)> = Vec::new();
    proof {
        lemma_deep_view_fields_len(r@);
        assert(deep_view_fields(r@) =~= Seq::<(Seq<char>, SpecJson)>::empty());
    }
    match &c.iss {
        Some(v) => {
            let ghost old_r = r@;
            r.push(("iss".to_owned(), JsonValue::Arr(str_values(v))));
            proof {
                crate::json::lemma_deep_view_fields_push(old_r, r@[r@.len() - 1]);
            }
        },
        None => {},
    }
    proof {
        assert(deep_view_fields(r@) =~= s1);
    }
    match &c.sub {
        Some(sv) => {
            let ghost old_r = r@;
            r.push(("sub".to_owned(), JsonValue::Str(sv.clone())));
            proof {
                crate::json::lemma_deep_view_fields_push(old_r, r@[r@.len() - 1]);
            }
        },
        None => {},
    }
    proof {
        assert(deep_view_fields(r@) =~= s1 + s2);
    }
    match &c.aud {
        Some(v) => {
            let ghost old_r = r@;
            r.push(("aud".to_owned(), JsonValue::Arr(str_values(v))));
            proof {
                crate::json::lemma_deep_view_fields_push(old_r, r@[r@.len() - 1]);
            }
        },
        None => {},
    }
    proof {
        assert(deep_view_fields(r@) =~= s1 + s2 + s3);
    }
    match &c.exp {
        Some(t) => {
            let ghost old_r = r@;
            r.push(("exp".to_owned(), JsonValue::Int(t.0)));
            proof {
                crate::json::lemma_deep_view_fields_push(old_r, r@[r@.len() - 1]);
            }
        },
        None => {},
    }
    proof {
        assert(deep_view_fields(r@) =~= s1 + s2 + s3 + s4);
    }
    match &c.nbf {
        Some(t) => {
            let ghost old_r = r@;
            r.push(("nbf".to_owned(), JsonValue::Int(t.0)));
            proof {
                crate::json::lemma_deep_view_fields_push(old_r, r@[r@.len() - 1]);
            }
        },
        None => {},
    }
    proof {
        assert(deep_view_fields(r@) =~= s1 + s2 + s3 + s4 + s5);
    }
    match &c.iat {
        Some(t) => {
            let ghost old_r = r@;
            r.push(("iat".to_owned(), JsonValue::Int(t.0)));
            proof {
                crate::json::lemma_deep_view_fields_push(old_r, r@[r@.len() - 1]);
            }
        },
        None => {},
    }
    proof {
        assert(deep_view_fields(r@) =~= s1 + s2 + s3 + s4 + s5 + s6);
    }
    match &c.jti {
        Some(sv) => {
            let ghost old_r = r@;
            r.push(("jti".to_owned(), JsonValue::Str(sv.clone())));
            proof {
                crate::json::lemma_deep_view_fields_push(old_r, r@[r@.len() - 1]);
            }
        },
        None => {},
    }
    proof {
        assert(deep_view_fields(r@) =~= s1 + s2 + s3 + s4 + s5 + s6 + s7);
        assert(deep_view_fields(r@) + c@.custom =~= claims_fields(c@));
    }
    r
}

/// The payload text of the claims: one flat JSON object.
fn payload_string(c: &JwtBuilder) -> (r: String)
    ensures
        r@ == spec_payload_chars(c@),
{
    let std_fields = standard_fields(c);
    let mut out = String::new();
    crate::strutil::push_char(&mut out, '{');
    let ghost all = claims_fields(c@);
    proof {
        lemma_deep_view_fields_len(c.custom@);
        lemma_deep_view_fields_len(std_fields@);
    }
    if std_fields.len() > 0 {
        crate::json::write_fields(&mut out, &std_fields, 0);
        proof {
            lemma_deep_view_fields_len(std_fields@);
            assert(deep_view_fields(std_fields@).skip(0) =~= deep_view_fields(std_fields@));
        }
        if c.custom.len() > 0 {
            crate::strutil::push_char(&mut out, ',');
            crate::json::write_fields(&mut out, &c.custom, 0);
            proof {
                assert(deep_view_fields(c.custom@).skip(0) =~= deep_view_fields(c.custom@));
                crate::json::lemma_ser_fields_concat(
                    deep_view_fields(std_fields@),
                    deep_view_fields(c.custom@),
                );
            }
        }
    } else if c.custom.len() > 0 {
        crate::json::write_fields(&mut out, &c.custom, 0);
        proof {
            assert(deep_view_fields(c.custom@).skip(0) =~= deep_view_fields(c.custom@));
            assert(all =~= deep_view_fields(c.custom@));
        }
    } else {
        proof {
            assert(all =~= Seq::<(Seq<char>, SpecJson)>::empty());
        }
    }
    crate::strutil::push_char(&mut out, '}');
    proof {
        assert(out@ =~= spec_payload_chars(c@));
    }
    out
}

impl JwtBuilder {
    /// Signs the claims into a compact token: base64url header and
    /// payload, and a signature over everything before it. Fails with
    /// `MissingSecret` when the engine holds no key.
    pub fn encode(&self, config: &SigningConfig) -> (r: Result<String, TokenError>)
        ensures
            config.spec_key() is None ==> r == Err::<String, TokenError>(TokenError::MissingSecret),
            config.spec_key() matches Some(k) ==> r matches Ok(t) && t@ == chars_of_bytes(
                spec_encode(self@, k),
            ) && vstd::utf8::encode_utf8(t@) == spec_encode(self@, k),
    {
        let key = match config.key_bytes() {
            Some(k) => k,
            None => {
                return Err(TokenError::MissingSecret);
            },
        };
        let payload = payload_string(self);
        proof {
            crate::json::lemma_ser_ascii(SpecJson::Obj(claims_fields(self@)));
        }
        let payload_chars = chars_of_str(payload.as_str());
        let payload_bytes = bytes_of_ascii_chars(&payload_chars);
        let hb = header_bytes();
        let h64 = b64_encode_exec(&hb, true);
        let p64 = b64_encode_exec(&payload_bytes, true);
        let mut msg: Vec<u8> = h64;
        let ghost h64v = msg@;
        msg.push(46);
        let mut p64m = p64;
        msg.append(&mut p64m);
        let sig = sign_hs256(key, &msg);
        let mut token = msg;
        let ghost msgv = token@;
        token.push(46);
        let mut sigm = sig;
        token.append(&mut sigm);
        proof {
            assert(msgv =~= b64_encode(spec_header_bytes(), true) + seq![46u8] + b64_encode(
                bytes_of_chars(spec_payload_chars(self@)),
                true,
            ));
            assert(token@ =~= msgv + seq![46u8] + hs256_signature(key@, msgv));
            assert(token@ =~= spec_encode(self@, key@));
            lemma_b64_encode_bytes(spec_header_bytes(), true);
            lemma_b64_encode_bytes(bytes_of_chars(spec_payload_chars(self@)), true);
            assert(all_ascii_bytes(token@));
            crate::strutil::lemma_encode_utf8_ascii(token@);
        }
        Ok(string_of_ascii_bytes(&token))
    }
}

/// Position of the first dot at or after `from`, or -1.
pub open spec fn find_dot(bs: Seq<u8>, from: nat) -> int
    decreases bs.len() - from,
{
    if from >= bs.len() {
        -1
    } else if bs[from as int] == 46 {
        from as int
    } else {
        find_dot(bs, from + 1)
    }
}

/// The three segments of a compact token: up to the first dot, between
/// the first and second dots, and everything after the second dot.
pub open spec fn spec_split3(bs: Seq<u8>) -> Option<(Seq<u8>, Seq<u8>, Seq<u8>)> {
    let i1 = find_dot(bs, 0);
    if i1 < 0 {
        None
    } else {
        let i2 = find_dot(bs, (i1 + 1) as nat);
        if i2 < 0 {
            None
        } else {
            Some(
                (
                    bs.subrange(0, i1),
                    bs.subrange(i1 + 1, i2),
                    bs.subrange(i2 + 1, bs.len() as int),
                ),
            )
        }
    }
}

/// A claim set with nothing in it.
pub open spec fn empty_claims() -> SpecClaims {
    SpecClaims {
        iss: None,
        sub: None,
        aud: None,
        exp: None,
        nbf: None,
        iat: None,
        jti: None,
        custom: Seq::empty(),
    }
}

/// The strings of an array of JSON string values, or nothing when some
/// element is not a string.
pub open spec fn arr_strs(vs: Seq<SpecJson>) -> Option<Seq<Seq<char>>>
    decreases vs.len(),
{
    if vs.len() == 0 {
        Some(Seq::empty())
    } else {
        match vs[0] {
            SpecJson::Str(s) => match arr_strs(vs.skip(1)) {
                Some(rest) => Some(seq![s] + rest),
                None => None,
            },
            _ => None,
        }
    }
}

/// Folds a flat field list back into a claim set: standard keys set their
/// field when the value has the right shape, every other key becomes a
/// custom claim in order.
pub open spec fn spec_extract(fields: Seq<(Seq<char>, SpecJson)>, acc: SpecClaims) -> Option<
    SpecClaims,
>
    decreases fields.len(),
{
    if fields.len() == 0 {
        Some(acc)
    } else {
        let k = fields[0].0;
        let v = fields[0].1;
        let step: Option<SpecClaims> = if k == seq!['i', 's', 's'] {
            match v {
                SpecJson::Arr(items) => match arr_strs(items) {
                    Some(ss) => Some(SpecClaims { iss: Some(ss), ..acc }),
                    None => None,
                },
                _ => None,
            }
        } else if k == seq!['s', 'u', 'b'] {
            match v {
                SpecJson::Str(sv) => Some(SpecClaims { sub: Some(sv), ..acc }),
                _ => None,
            }
        } else if k == seq!['a', 'u', 'd'] {
            match v {
                SpecJson::Arr(items) => match arr_strs(items) {
                    Some(ss) => Some(SpecClaims { aud: Some(ss), ..acc }),
                    None => None,
                },
                _ => None,
            }
        } else if k == seq!['e', 'x', 'p'] {
            match v {
                SpecJson::Int(t) => Some(SpecClaims { exp: Some(t), ..acc }),
                _ => None,
            }
        } else if k == seq!['n', 'b', 'f'] {
            match v {
                SpecJson::Int(t) => Some(SpecClaims { nbf: Some(t), ..acc }),
                _ => None,
            }
        } else if k == seq!['i', 'a', 't'] {
            match v {
                SpecJson::Int(t) => Some(SpecClaims { iat: Some(t), ..acc }),
                _ => None,
            }
        } else if k == seq!['j', 't', 'i'] {
            match v {
                SpecJson::Str(sv) => Some(SpecClaims { jti: Some(sv), ..acc }),
                _ => None,
            }
        } else {
            Some(SpecClaims { custom: acc.custom.push((k, v)), ..acc })
        };
        match step {
            Some(acc2) => spec_extract(fields.skip(1), acc2),
            None => None,
        }
    }
}

/// At least one string appears in both lists.
pub open spec fn spec_intersects(a: Seq<Seq<char>>, b: Seq<Seq<char>>) -> bool {
    exists|i: int, j: int| 0 <= i < a.len() && 0 <= j < b.len() && a[i] == b[j]
}

/// The first policy failure of a claim set, if any: expiration, then
/// not-before, then issuer, then audience.
pub open spec fn check_policy(c: SpecClaims, v: Validation, now: int) -> Option<TokenError> {
    if v.validate_exp && c.exp is None {
        Some(TokenError::MissingClaim)
    } else if v.validate_exp && now > c.exp->0 {
        Some(TokenError::Expired)
    } else if v.validate_nbf && c.nbf is Some && now < c.nbf->0 {
        Some(TokenError::NotYetValid)
    } else if v.iss is Some && !(c.iss is Some && spec_intersects(c.iss->0, v.iss->0.deep_view())) {
        Some(TokenError::IssuerRejected)
    } else if v.aud is Some && !(c.aud is Some && spec_intersects(c.aud->0, v.aud->0.deep_view())) {
        Some(TokenError::AudienceRejected)
    } else {
        None
    }
}

/// What `decode` computes: split, header check, signature check, payload
/// parse, claim extraction, then the policy.
/// The value of the first field with the given key, if any.
pub open spec fn find_field(fields: Seq<(Seq<char>, SpecJson)>, key: Seq<char>) -> Option<SpecJson>
    decreases fields.len(),
{
    if fields.len() == 0 {
        None
    } else if fields[0].0 == key {
        Some(fields[0].1)
    } else {
        find_field(fields.skip(1), key)
    }
}

/// A parsed header names this engine's algorithm: its first `alg` field
/// is the string `HS256`. Other fields and their order are free, as they
/// are for the reference wire format.
pub open spec fn header_ok(hf: Seq<(Seq<char>, SpecJson)>) -> bool {
    find_field(hf, seq!['a', 'l', 'g']) == Some(
        SpecJson::Str(seq!['H', 'S', '2', '5', '6']),
    )
}

pub open spec fn spec_decode(bs: Seq<u8>, key: Option<Seq<u8>>, v: Validation, now: int) -> Result<
    SpecClaims,
    TokenError,
> {
    match key {
        None => Err(TokenError::MissingSecret),
        Some(k) => match spec_split3(bs) {
            None => Err(TokenError::MalformedToken),
            Some((h, p, sig)) => match b64_decode(h, true) {
                None => Err(TokenError::MalformedToken),
                Some(hb) => if !(all_ascii_bytes(hb) && (parse_json(chars_of_bytes(hb)) matches Some(
                    SpecJson::Obj(hf),
                ) && header_ok(hf))) {
                    Err(TokenError::MalformedToken)
                } else if sig != hs256_signature(k, h + seq![46u8] + p) {
                    Err(TokenError::SignatureMismatch)
                } else {
                    match b64_decode(p, true) {
                        None => Err(TokenError::MalformedToken),
                        Some(pb) => if !all_ascii_bytes(pb) {
                            Err(TokenError::MalformedToken)
                        } else {
                            match parse_json(chars_of_bytes(pb)) {
                                Some(SpecJson::Obj(fields)) => match spec_extract(
                                    fields,
                                    empty_claims(),
                                ) {
                                    None => Err(TokenError::MalformedToken),
                                    Some(c) => match check_policy(c, v, now) {
                                        Some(e) => Err(e),
                                        None => Ok(c),
                                    },
                                },
                                _ => Err(TokenError::MalformedToken),
                            }
                        },
                    }
                },
            },
        },
    }
}

/// Position of the first dot at or after `from`, executable.
fn find_dot_exec(bs: &Vec<u8>, from: usize) -> (r: Option<usize>)
    requires
        from <= bs@.len(),
    ensures
        r matches Some(i) ==> from <= i < bs@.len() && find_dot(bs@, from as nat) == i as int
            && bs@[i as int] == 46,
        r is None ==> find_dot(bs@, from as nat) == -1,
    decreases bs@.len() - from,
{
    if from >= bs.len() {
        None
    } else if bs[from] == 46 {
        Some(from)
    } else {
        find_dot_exec(bs, from + 1)
    }
}

/// The bytes of `bs` from `from` up to `to`.
fn subvec(bs: &Vec<u8>, from: usize, to: usize) -> (r: Vec<u8>)
    requires
        from <= to <= bs@.len(),
    ensures
        r@ == bs@.subrange(from as int, to as int),
{
    let mut r: Vec<u8> = Vec::new();
    let mut i = from;
    while i < to
        invariant
            from <= i <= to <= bs@.len(),
            r@ =~= bs@.subrange(from as int, i as int),
        decreases to - i,
    {
        r.push(bs[i]);
        proof {
            assert(r@ =~= bs@.subrange(from as int, i as int + 1));
        }
        i += 1;
    }
    r
}

/// The strings of an array of JSON string values, executable.
fn strs_of(items_in: Vec<JsonValue>) -> (r: Option<Vec<String>>)
    ensures
        r is Some <==> arr_strs(deep_view_seq(items_in@)) is Some,
        r matches Some(ss) ==> arr_strs(deep_view_seq(items_in@)) == Some(ss.deep_view()),
    decreases items_in@.len(),
{
    let mut items = items_in;
    if items.len() == 0 {
        let out: Vec<String> = Vec::new();
        proof {
            lemma_deep_view_seq_len(items@);
            assert(out.deep_view() =~= Seq::<Seq<char>>::empty());
        }
        Some(out)
    } else {
        let ghost dv = deep_view_seq(items@);
        proof {
            lemma_deep_view_seq_index(items@, 0);
        }
        let ghost oldi = items@;
        let first = items.remove(0);
        proof {
            lemma_deep_view_seq_len(items@);
            assert(items@ =~= oldi.skip(1));
            assert(deep_view_seq(items@) =~= dv.skip(1)) by {
                assert forall|i: int| 0 <= i < items@.len() implies deep_view_seq(items@)[i]
                    == dv.skip(1)[i] by {
                    lemma_deep_view_seq_index(items@, i);
                    lemma_deep_view_seq_index(oldi, i + 1);
                    assert(items@[i] == oldi[i + 1]);
                }
            }
        }
        match first {
            JsonValue::Str(sv) => {
                match strs_of(items) {
                    Some(mut rest) => {
                        rest.insert(0, sv);
                        proof {
                            assert(rest.deep_view() =~= seq![rest@[0]@] + rest.deep_view().skip(
                                1,
                            ));
                        }
                        Some(rest)
                    },
                    None => None,
                }
            },
            _ => None,
        }
    }
}

/// Decides `header_ok` on a parsed header object.
fn header_alg_ok(fields: &Vec<(String, JsonValue)>) -> (r: bool)
    ensures
        r == header_ok(deep_view_fields(fields@)),
{
    proof {
        reveal_strlit("alg");
        reveal_strlit("HS256");
        assert("alg"@ =~= seq!['a', 'l', 'g']);
        assert("HS256"@ =~= seq!['H', 'S', '2', '5', '6']);
        lemma_deep_view_fields_len(fields@);
    }
    let ghost dv = deep_view_fields(fields@);
    proof {
        assert(dv.skip(0) =~= dv);
    }
    let mut i: usize = 0;
    while i < fields.len()
        invariant
            i <= fields@.len(),
            dv == deep_view_fields(fields@),
            dv.len() == fields@.len(),
            "alg"@ =~= seq!['a', 'l', 'g'],
            "HS256"@ =~= seq!['H', 'S', '2', '5', '6'],
            find_field(dv, seq!['a', 'l', 'g']) == find_field(
                dv.skip(i as int),
                seq!['a', 'l', 'g'],
            ),
        decreases fields@.len() - i,
    {
        proof {
            lemma_deep_view_fields_index(fields@, i as int);
            assert(dv.skip(i as int)[0] == dv[i as int]);
            assert(dv.skip(i as int).skip(1) =~= dv.skip(i as int + 1));
        }
        if key_is(&fields[i].0, "alg") {
            match &fields[i].1 {
                JsonValue::Str(sv) => {
                    return key_is(sv, "HS256");
                },
                _ => {
                    return false;
                },
            }
        }
        i += 1;
    }
    proof {
        assert(dv.skip(fields@.len() as int) =~= Seq::<(Seq<char>, SpecJson)>::empty());
    }
    false
}

/// One token read back into claims, with the reason for any rejection.
/// The moment `now` is an explicit argument: the result is a function of
/// its inputs alone.
#[verifier::rlimit(100)]
#[verifier::spinoff_prover]
pub fn decode_classified_at(
    token: &str,
    validation: &Validation,
    config: &SigningConfig,
    now: DateTimeUtc,
) -> (r: Result<JwtBuilder, TokenError>)
    ensures
        r matches Ok(c) ==> spec_decode(
            token.spec_bytes(),
            config.spec_key(),
            *validation,
            now.0 as int,
        ) == Ok::<SpecClaims, TokenError>(c@),
        r matches Err(e) ==> spec_decode(
            token.spec_bytes(),
            config.spec_key(),
            *validation,
            now.0 as int,
        ) == Err::<SpecClaims, TokenError>(e),
{
    let key = match config.key_bytes() {
        Some(k) => k,
        None => {
            return Err(TokenError::MissingSecret);
        },
    };
    let bs = token.as_bytes_vec();
    let blen = bs.len();
    let i1 = match find_dot_exec(&bs, 0) {
        Some(i) => i,
        None => {
            return Err(TokenError::MalformedToken);
        },
    };
    proof {
        assert(i1 < blen);
    }
    let i2 = match find_dot_exec(&bs, i1 + 1) {
        Some(i) => i,
        None => {
            return Err(TokenError::MalformedToken);
        },
    };
    let h = subvec(&bs, 0, i1);
    let p = subvec(&bs, i1 + 1, i2);
    let sig = subvec(&bs, i2 + 1, bs.len());
    proof {
        assert(spec_split3(bs@) == Some((h@, p@, sig@)));
    }
    let hb = match b64_decode_exec(&h, true) {
        Some(hb) => hb,
        None => {
            return Err(TokenError::MalformedToken);
        },
    };
    if !ascii_check(&hb) {
        return Err(TokenError::MalformedToken);
    }
    let htext = string_of_ascii_bytes(&hb);
    let hchars = chars_of_str(htext.as_str());
    let hfields = match parse_json_exec(&hchars) {
        Some(JsonValue::Obj(hfields)) => hfields,
        Some(_) => {
            return Err(TokenError::MalformedToken);
        },
        None => {
            return Err(TokenError::MalformedToken);
        },
    };
    if !header_alg_ok(&hfields) {
        return Err(TokenError::MalformedToken);
    }
    let msg = subvec(&bs, 0, i2);
    proof {
        assert(msg@ =~= h@ + seq![46u8] + p@);
    }
    let expected = sign_hs256(key, &msg);
    if !ct_eq(&sig, &expected) {
        return Err(TokenError::SignatureMismatch);
    }
    let pb = match b64_decode_exec(&p, true) {
        Some(pb) => pb,
        None => {
            return Err(TokenError::MalformedToken);
        },
    };
    if !ascii_check(&pb) {
        return Err(TokenError::MalformedToken);
    }
    let ptext = string_of_ascii_bytes(&pb);
    let pchars = chars_of_str(ptext.as_str());
    let fields = match parse_json_exec(&pchars) {
        Some(JsonValue::Obj(fields)) => fields,
        Some(_) => {
            return Err(TokenError::MalformedToken);
        },
        None => {
            return Err(TokenError::MalformedToken);
        },
    };
    let claims = match extract_claims(fields) {
        Some(c) => c,
        None => {
            return Err(TokenError::MalformedToken);
        },
    };
    match check_policy_exec(&claims, validation, now) {
        Some(e) => Err(e),
        None => Ok(claims),
    }
}

/// Every byte is ASCII.
fn ascii_check(pb: &Vec<u8>) -> (r: bool)
    ensures
        r == all_ascii_bytes(pb@),
{
    let mut i: usize = 0;
    while i < pb.len()
        invariant
            i <= pb@.len(),
            forall|j: int| 0 <= j < i ==> #[trigger] pb@[j] < 128,
        decreases pb@.len() - i,
    {
        if pb[i] >= 128 {
            return false;
        }
        i += 1;
    }
    true
}

/// Folds a parsed field list back into claims, executable.
#[verifier::loop_isolation(false)]
fn extract_claims(fields_in: Vec<(String, JsonValue)>) -> (r: Option<JwtBuilder>)
    ensures
        r is Some <==> spec_extract(deep_view_fields(fields_in@), empty_claims()) is Some,
        r matches Some(c) ==> spec_extract(deep_view_fields(fields_in@), empty_claims()) == Some(
            c@,
        ),
{
    proof {
        reveal_strlit("iss");
        reveal_strlit("sub");
        reveal_strlit("aud");
        reveal_strlit("exp");
        reveal_strlit("nbf");
        reveal_strlit("iat");
        reveal_strlit("jti");
        assert("iss"@ =~= seq!['i', 's', 's']);
        assert("sub"@ =~= seq!['s', 'u', 'b']);
        assert("aud"@ =~= seq!['a', 'u', 'd']);
        assert("exp"@ =~= seq!['e', 'x', 'p']);
        assert("nbf"@ =~= seq!['n', 'b', 'f']);
        assert("iat"@ =~= seq!['i', 'a', 't']);
        assert("jti"@ =~= seq!['j', 't', 'i']);
    }
    let mut fields = fields_in;
    let mut acc = JwtBuilder {
        iss: None,
        sub: None,
        aud: None,
        exp: None,
        nbf: None,
        iat: None,
        jti: None,
        custom: Vec::new(),
    };
    let ghost all = deep_view_fields(fields@);
    proof {
        lemma_deep_view_fields_len(acc.custom@);
        assert(acc@ == empty_claims()) by {
            assert(acc@.custom =~= empty_claims().custom);
        }
    }
    while fields.len() > 0
        invariant
            spec_extract(all, empty_claims()) == spec_extract(deep_view_fields(fields@), acc@),
            "iss"@ =~= seq!['i', 's', 's'],
            "sub"@ =~= seq!['s', 'u', 'b'],
            "aud"@ =~= seq!['a', 'u', 'd'],
            "exp"@ =~= seq!['e', 'x', 'p'],
            "nbf"@ =~= seq!['n', 'b', 'f'],
            "iat"@ =~= seq!['i', 'a', 't'],
            "jti"@ =~= seq!['j', 't', 'i'],
        decreases fields@.len(),
    {
        let ghost oldf = fields@;
        let ghost dv = deep_view_fields(fields@);
        proof {
            lemma_deep_view_fields_len(fields@);
            lemma_deep_view_fields_index(fields@, 0);
        }
        let (k, v) = fields.remove(0);
        proof {
            lemma_deep_view_fields_len(fields@);
            assert(fields@ =~= oldf.skip(1));
            assert(deep_view_fields(fields@) =~= dv.skip(1)) by {
                assert forall|i: int| 0 <= i < fields@.len() implies deep_view_fields(fields@)[i]
                    == dv.skip(1)[i] by {
                    lemma_deep_view_fields_index(fields@, i);
                    lemma_deep_view_fields_index(oldf, i + 1);
                    assert(fields@[i] == oldf[i + 1]);
                }
            }
        }
        let ghost acc0 = acc@;
        proof {
            assert(dv[0] == (k@, v.deep_view()));
            assert(dv.len() > 0);
        }
        if key_is(&k, "iss") {
            proof {
                assert(dv[0].0 == seq!['i', 's', 's']);
            }
            match v {
                JsonValue::Arr(items) => {
                    let ghost itemsv = deep_view_seq(items@);
                    proof {
                        assert(dv[0].1 == SpecJson::Arr(itemsv));
                    }
                    match strs_of(items) {
                        Some(ss) => {
                            acc = JwtBuilder { iss: Some(ss), ..acc };
                            proof {
                                assert(acc@ == SpecClaims { iss: Some(ss.deep_view()), ..acc0 });
                                assert(spec_extract(dv, acc0) == spec_extract(dv.skip(1), acc@));
                            }
                        },
                        None => {
                            proof {
                                assert(spec_extract(dv, acc0) is None);
                            }
                            return None;
                        },
                    }
                },
                _ => {
                    proof {
                        assert(spec_extract(dv, acc0) is None);
                    }
                    return None;
                },
            }
        } else if key_is(&k, "aud") {
            proof {
                assert(dv[0].0 == seq!['a', 'u', 'd']);
            }
            match v {
                JsonValue::Arr(items) => {
                    let ghost itemsv = deep_view_seq(items@);
                    proof {
                        assert(dv[0].1 == SpecJson::Arr(itemsv));
                    }
                    match strs_of(items) {
                        Some(ss) => {
                            acc = JwtBuilder { aud: Some(ss), ..acc };
                            proof {
                                assert(acc@ == SpecClaims { aud: Some(ss.deep_view()), ..acc0 });
                                assert(spec_extract(dv, acc0) == spec_extract(dv.skip(1), acc@));
                            }
                        },
                        None => {
                            proof {
                                assert(spec_extract(dv, acc0) is None);
                            }
                            return None;
                        },
                    }
                },
                _ => {
                    proof {
                        assert(spec_extract(dv, acc0) is None);
                    }
                    return None;
                },
            }
        } else if key_is(&k, "sub") {
            proof {
                assert(dv[0].0 == seq!['s', 'u', 'b']);
            }
            match v {
                JsonValue::Str(sv) => {
                    acc = JwtBuilder { sub: Some(sv), ..acc };
                    proof {
                        assert(spec_extract(dv, acc0) == spec_extract(dv.skip(1), acc@));
                    }
                },
                _ => {
                    proof {
                        assert(spec_extract(dv, acc0) is None);
                    }
                    return None;
                },
            }
        } else if key_is(&k, "exp") {
            proof {
                assert(dv[0].0 == seq!['e', 'x', 'p']);
            }
            match v {
                JsonValue::Int(t) => {
                    acc = JwtBuilder { exp: Some(DateTimeUtc(t)), ..acc };
                    proof {
                        assert(spec_extract(dv, acc0) == spec_extract(dv.skip(1), acc@));
                    }
                },
                _ => {
                    proof {
                        assert(spec_extract(dv, acc0) is None);
                    }
                    return None;
                },
            }
        } else if key_is(&k, "nbf") {
            proof {
                assert(dv[0].0 == seq!['n', 'b', 'f']);
            }
            match v {
                JsonValue::Int(t) => {
                    acc = JwtBuilder { nbf: Some(DateTimeUtc(t)), ..acc };
                    proof {
                        assert(spec_extract(dv, acc0) == spec_extract(dv.skip(1), acc@));
                    }
                },
                _ => {
                    proof {
                        assert(spec_extract(dv, acc0) is None);
                    }
                    return None;
                },
            }
        } else if key_is(&k, "iat") {
            proof {
                assert(dv[0].0 == seq!['i', 'a', 't']);
            }
            match v {
                JsonValue::Int(t) => {
                    acc = JwtBuilder { iat: Some(DateTimeUtc(t)), ..acc };
                    proof {
                        assert(spec_extract(dv, acc0) == spec_extract(dv.skip(1), acc@));
                    }
                },
                _ => {
                    proof {
                        assert(spec_extract(dv, acc0) is None);
                    }
                    return None;
                },
            }
        } else if key_is(&k, "jti") {
            proof {
                assert(dv[0].0 == seq!['j', 't', 'i']);
            }
            match v {
                JsonValue::Str(sv) => {
                    acc = JwtBuilder { jti: Some(sv), ..acc };
                    proof {
                        assert(spec_extract(dv, acc0) == spec_extract(dv.skip(1), acc@));
                    }
                },
                _ => {
                    proof {
                        assert(spec_extract(dv, acc0) is None);
                    }
                    return None;
                },
            }
        } else {
            proof {
                assert(dv[0].0 != seq!['i', 's', 's'] && dv[0].0 != seq!['s', 'u', 'b'] && dv[0].0
                    != seq!['a', 'u', 'd'] && dv[0].0 != seq!['e', 'x', 'p'] && dv[0].0
                    != seq!['n', 'b', 'f'] && dv[0].0 != seq!['i', 'a', 't'] && dv[0].0
                    != seq!['j', 't', 'i']);
            }
            let ghost old_custom = acc.custom@;
            let mut custom = acc.custom;
            custom.push((k, v));
            proof {
                crate::json::lemma_deep_view_fields_push(
                    old_custom,
                    custom@[old_custom.len() as int],
                );
            }
            acc = JwtBuilder { custom, ..acc };
            proof {
                assert(acc@ == SpecClaims { custom: acc0.custom.push(dv[0]), ..acc0 });
                assert(spec_extract(dv, acc0) == spec_extract(dv.skip(1), acc@));
            }
        }
    }
    proof {
        lemma_deep_view_fields_len(fields@);
        assert(deep_view_fields(fields@) =~= Seq::<(Seq<char>, SpecJson)>::empty());
    }
    Some(acc)
}

/// At least one string appears in both lists, executable.
fn lists_intersect(a: &Vec<String>, b: &Vec<String>) -> (r: bool)
    ensures
        r == spec_intersects(a.deep_view(), b.deep_view()),
{
    let mut i: usize = 0;
    while i < a.len()
        invariant
            i <= a@.len(),
            !spec_intersects(a.deep_view().take(i as int), b.deep_view()),
        decreases a@.len() - i,
    {
        let mut j: usize = 0;
        while j < b.len()
            invariant
                i < a@.len(),
                j <= b@.len(),
                !spec_intersects(a.deep_view().take(i as int), b.deep_view()),
                forall|y: int| 0 <= y < j ==> a.deep_view()[i as int] != #[trigger] b.deep_view()[y],
            decreases b@.len() - j,
        {
            if a[i] == b[j] {
                proof {
                    assert(a.deep_view()[i as int] == b.deep_view()[j as int]);
                }
                return true;
            }
            j += 1;
        }
        proof {
            assert(!spec_intersects(a.deep_view().take(i as int + 1), b.deep_view())) by {
                assert forall|x: int, y: int|
                    0 <= x < i + 1 && 0 <= y < b@.len() implies #[trigger] a.deep_view().take(
                    i as int + 1,
                )[x] != #[trigger] b.deep_view()[y] by {
                    if x < i {
                        assert(a.deep_view().take(i as int)[x] == a.deep_view().take(
                            i as int + 1,
                        )[x]);
                        assert(!spec_intersects(a.deep_view().take(i as int), b.deep_view()));
                    }
                }
            }
        }
        i += 1;
    }
    proof {
        assert(a.deep_view().take(a@.len() as int) =~= a.deep_view());
    }
    false
}

/// The first policy failure, executable.
fn check_policy_exec(c: &JwtBuilder, v: &Validation, now: DateTimeUtc) -> (r: Option<TokenError>)
    ensures
        r == check_policy(c@, *v, now.0 as int),
{
    if v.validate_exp {
        match &c.exp {
            None => {
                return Some(TokenError::MissingClaim);
            },
            Some(t) => {
                if now.0 > t.0 {
                    return Some(TokenError::Expired);
                }
            },
        }
    }
    if v.validate_nbf {
        match &c.nbf {
            Some(t) => {
                if now.0 < t.0 {
                    return Some(TokenError::NotYetValid);
                }
            },
            None => {},
        }
    }
    match &v.iss {
        Some(req) => {
            let ok = match &c.iss {
                Some(have) => lists_intersect(have, req),
                None => false,
            };
            if !ok {
                return Some(TokenError::IssuerRejected);
            }
        },
        None => {},
    }
    match &v.aud {
        Some(req) => {
            let ok = match &c.aud {
                Some(have) => lists_intersect(have, req),
                None => false,
            };
            if !ok {
                return Some(TokenError::AudienceRejected);
            }
        },
        None => {},
    }
    None
}

impl JwtBuilder {
    /// Reads a compact token back at the current time; any validation
    /// failure yields an empty result. Whatever the clock read, the
    /// result is what `spec_decode` gives at some moment in chrono's
    /// range: empty only where that moment rejects the token.
    pub fn decode(token: &str, validation: &Validation, config: &SigningConfig) -> (r: Option<
        JwtBuilder,
    >)
        ensures
            r matches Some(c) ==> exists|now: int|
                -9000000000000 <= now <= 9000000000000 && spec_decode(
                    token.spec_bytes(),
                    config.spec_key(),
                    *validation,
                    now,
                ) == Ok::<SpecClaims, TokenError>(c@),
            r is None ==> exists|now: int|
                -9000000000000 <= now <= 9000000000000 && spec_decode(
                    token.spec_bytes(),
                    config.spec_key(),
                    *validation,
                    now,
                ) is Err,
    {
        let now = DateTimeUtc::now();
        let ghost w = now.0 as int;
        match decode_classified_at(token, validation, config, now) {
            Ok(c) => {
                proof {
                    assert(-9000000000000 <= w <= 9000000000000 && spec_decode(
                        token.spec_bytes(),
                        config.spec_key(),
                        *validation,
                        w,
                    ) == Ok::<SpecClaims, TokenError>(c@));
                }
                Some(c)
            },
            Err(e) => {
                proof {
                    assert(-9000000000000 <= w <= 9000000000000 && spec_decode(
                        token.spec_bytes(),
                        config.spec_key(),
                        *validation,
                        w,
                    ) is Err);
                }
                None
            },
        }
    }
}

impl TokenGenerator for JwtBuilder {
    fn encode(&self, config: &SigningConfig) -> Result<String, TokenError> {
        JwtBuilder::encode(self, config)
    }

    fn decode(token: &str, validation: &Validation, config: &SigningConfig) -> Option<Self> {
        JwtBuilder::decode(token, validation, config)
    }
}

/// The seven standard claim names are pairwise distinct.
proof fn lemma_reserved_distinct()
    ensures
        seq!['i', 's', 's'] != seq!['s', 'u', 'b'],
        seq!['i', 's', 's'] != seq!['a', 'u', 'd'],
        seq!['i', 's', 's'] != seq!['e', 'x', 'p'],
        seq!['i', 's', 's'] != seq!['n', 'b', 'f'],
        seq!['i', 's', 's'] != seq!['i', 'a', 't'],
        seq!['i', 's', 's'] != seq!['j', 't', 'i'],
        seq!['s', 'u', 'b'] != seq!['a', 'u', 'd'],
        seq!['s', 'u', 'b'] != seq!['e', 'x', 'p'],
        seq!['s', 'u', 'b'] != seq!['n', 'b', 'f'],
        seq!['s', 'u', 'b'] != seq!['i', 'a', 't'],
        seq!['s', 'u', 'b'] != seq!['j', 't', 'i'],
        seq!['a', 'u', 'd'] != seq!['e', 'x', 'p'],
        seq!['a', 'u', 'd'] != seq!['n', 'b', 'f'],
        seq!['a', 'u', 'd'] != seq!['i', 'a', 't'],
        seq!['a', 'u', 'd'] != seq!['j', 't', 'i'],
        seq!['e', 'x', 'p'] != seq!['n', 'b', 'f'],
        seq!['e', 'x', 'p'] != seq!['i', 'a', 't'],
        seq!['e', 'x', 'p'] != seq!['j', 't', 'i'],
        seq!['n', 'b', 'f'] != seq!['i', 'a', 't'],
        seq!['n', 'b', 'f'] != seq!['j', 't', 'i'],
        seq!['i', 'a', 't'] != seq!['j', 't', 'i'],
{
    assert(seq!['i', 's', 's'][1] != seq!['s', 'u', 'b'][1]);
    assert(seq!['i', 's', 's'][0] != seq!['a', 'u', 'd'][0]);
    assert(seq!['i', 's', 's'][0] != seq!['e', 'x', 'p'][0]);
    assert(seq!['i', 's', 's'][0] != seq!['n', 'b', 'f'][0]);
    assert(seq!['i', 's', 's'][1] != seq!['i', 'a', 't'][1]);
    assert(seq!['i', 's', 's'][0] != seq!['j', 't', 'i'][0]);
    assert(seq!['s', 'u', 'b'][0] != seq!['a', 'u', 'd'][0]);
    assert(seq!['s', 'u', 'b'][0] != seq!['e', 'x', 'p'][0]);
    assert(seq!['s', 'u', 'b'][0] != seq!['n', 'b', 'f'][0]);
    assert(seq!['s', 'u', 'b'][0] != seq!['i', 'a', 't'][0]);
    assert(seq!['s', 'u', 'b'][0] != seq!['j', 't', 'i'][0]);
    assert(seq!['a', 'u', 'd'][0] != seq!['e', 'x', 'p'][0]);
    assert(seq!['a', 'u', 'd'][0] != seq!['n', 'b', 'f'][0]);
    assert(seq!['a', 'u', 'd'][0] != seq!['i', 'a', 't'][0]);
    assert(seq!['a', 'u', 'd'][0] != seq!['j', 't', 'i'][0]);
    assert(seq!['e', 'x', 'p'][0] != seq!['n', 'b', 'f'][0]);
    assert(seq!['e', 'x', 'p'][0] != seq!['i', 'a', 't'][0]);
    assert(seq!['e', 'x', 'p'][0] != seq!['j', 't', 'i'][0]);
    assert(seq!['n', 'b', 'f'][0] != seq!['i', 'a', 't'][0]);
    assert(seq!['n', 'b', 'f'][0] != seq!['j', 't', 'i'][0]);
    assert(seq!['i', 'a', 't'][0] != seq!['j', 't', 'i'][0]);
}

/// Reading the strings back out of an array of string values yields the
/// strings.
proof fn lemma_arr_strs_inv(ss: Seq<Seq<char>>)
    ensures
        arr_strs(str_arr(ss)) == Some(ss),
    decreases ss.len(),
{
    if ss.len() == 0 {
        assert(str_arr(ss).len() == 0);
        assert(arr_strs(str_arr(ss)) == Some(Seq::<Seq<char>>::empty()));
        assert(ss =~= Seq::<Seq<char>>::empty());
    } else {
        lemma_arr_strs_inv(ss.skip(1));
        assert(str_arr(ss)[0] == SpecJson::Str(ss[0]));
        assert(str_arr(ss).skip(1) =~= str_arr(ss.skip(1)));
        assert(seq![ss[0]] + ss.skip(1) =~= ss);
    }
}


/// One optional segment of the flat field list, by stage: the standard
/// fields in canonical order.
spec fn claims_seg(c: SpecClaims, k: int) -> Seq<(Seq<char>, SpecJson)> {
    if k == 0 {
    match c.iss {
        Some(v) => seq![(seq!['i', 's', 's'], SpecJson::Arr(str_arr(v)))],
        None => Seq::empty(),
    }
    } else if k == 1 {
    match c.sub {
        Some(sv) => seq![(seq!['s', 'u', 'b'], SpecJson::Str(sv))],
        None => Seq::empty(),
    }
    } else if k == 2 {
    match c.aud {
        Some(v) => seq![(seq!['a', 'u', 'd'], SpecJson::Arr(str_arr(v)))],
        None => Seq::empty(),
    }
    } else if k == 3 {
    match c.exp {
        Some(t) => seq![(seq!['e', 'x', 'p'], SpecJson::Int(t))],
        None => Seq::empty(),
    }
    } else if k == 4 {
    match c.nbf {
        Some(t) => seq![(seq!['n', 'b', 'f'], SpecJson::Int(t))],
        None => Seq::empty(),
    }
    } else if k == 5 {
    match c.iat {
        Some(t) => seq![(seq!['i', 'a', 't'], SpecJson::Int(t))],
        None => Seq::empty(),
    }
    } else if k == 6 {
    match c.jti {
        Some(sv) => seq![(seq!['j', 't', 'i'], SpecJson::Str(sv))],
        None => Seq::empty(),
    }
    } else {
        Seq::empty()
    }
}

/// The field list from stage `k` on: the remaining standard segments,
/// then the custom claims.
spec fn claims_fields_from(c: SpecClaims, k: int) -> Seq<(Seq<char>, SpecJson)>
    decreases 7 - k,
{
    if k >= 7 {
        c.custom
    } else {
        claims_seg(c, k) + claims_fields_from(c, k + 1)
    }
}

/// The claims after the first `k` standard segments were read back.
spec fn claims_acc(c: SpecClaims, k: int) -> SpecClaims {
    SpecClaims {
        iss: if k >= 1 { c.iss } else { None },
        sub: if k >= 2 { c.sub } else { None },
        aud: if k >= 3 { c.aud } else { None },
        exp: if k >= 4 { c.exp } else { None },
        nbf: if k >= 5 { c.nbf } else { None },
        iat: if k >= 6 { c.iat } else { None },
        jti: if k >= 7 { c.jti } else { None },
        custom: Seq::empty(),
    }
}

/// Reading one iss segment sets that field and moves one stage on.
#[verifier::rlimit(100)]
proof fn lemma_extract_stage_0(c: SpecClaims)
    ensures
        spec_extract(claims_fields_from(c, 0), claims_acc(c, 0)) == spec_extract(
            claims_fields_from(c, 1),
            claims_acc(c, 1),
        ),
{
    lemma_reserved_distinct();
    let fs = claims_fields_from(c, 0);
    let rest = claims_fields_from(c, 1);
    match c.iss {
        Some(x) => {
            assert(fs[0] == claims_seg(c, 0)[0]);
            assert(fs.skip(1) =~= rest);
            lemma_arr_strs_inv(x);
            assert(claims_acc(c, 1) == SpecClaims { iss: Some(x), ..claims_acc(c, 0) });
        },
        None => {
            assert(fs =~= rest);
            assert(claims_acc(c, 1) == claims_acc(c, 0));
        },
    }
}

/// Reading one sub segment sets that field and moves one stage on.
#[verifier::rlimit(100)]
proof fn lemma_extract_stage_1(c: SpecClaims)
    ensures
        spec_extract(claims_fields_from(c, 1), claims_acc(c, 1)) == spec_extract(
            claims_fields_from(c, 2),
            claims_acc(c, 2),
        ),
{
    lemma_reserved_distinct();
    let fs = claims_fields_from(c, 1);
    let rest = claims_fields_from(c, 2);
    match c.sub {
        Some(x) => {
            assert(fs[0] == claims_seg(c, 1)[0]);
            assert(fs.skip(1) =~= rest);
            assert(claims_acc(c, 2) == SpecClaims { sub: Some(x), ..claims_acc(c, 1) });
        },
        None => {
            assert(fs =~= rest);
            assert(claims_acc(c, 2) == claims_acc(c, 1));
        },
    }
}

/// Reading one aud segment sets that field and moves one stage on.
#[verifier::rlimit(100)]
proof fn lemma_extract_stage_2(c: SpecClaims)
    ensures
        spec_extract(claims_fields_from(c, 2), claims_acc(c, 2)) == spec_extract(
            claims_fields_from(c, 3),
            claims_acc(c, 3),
        ),
{
    lemma_reserved_distinct();
    let fs = claims_fields_from(c, 2);
    let rest = claims_fields_from(c, 3);
    match c.aud {
        Some(x) => {
            assert(fs[0] == claims_seg(c, 2)[0]);
            assert(fs.skip(1) =~= rest);
            lemma_arr_strs_inv(x);
            assert(claims_acc(c, 3) == SpecClaims { aud: Some(x), ..claims_acc(c, 2) });
        },
        None => {
            assert(fs =~= rest);
            assert(claims_acc(c, 3) == claims_acc(c, 2));
        },
    }
}

/// Reading one exp segment sets that field and moves one stage on.
#[verifier::rlimit(100)]
proof fn lemma_extract_stage_3(c: SpecClaims)
    ensures
        spec_extract(claims_fields_from(c, 3), claims_acc(c, 3)) == spec_extract(
            claims_fields_from(c, 4),
            claims_acc(c, 4),
        ),
{
    lemma_reserved_distinct();
    let fs = claims_fields_from(c, 3);
    let rest = claims_fields_from(c, 4);
    match c.exp {
        Some(x) => {
            assert(fs[0] == claims_seg(c, 3)[0]);
            assert(fs.skip(1) =~= rest);
            assert(claims_acc(c, 4) == SpecClaims { exp: Some(x), ..claims_acc(c, 3) });
        },
        None => {
            assert(fs =~= rest);
            assert(claims_acc(c, 4) == claims_acc(c, 3));
        },
    }
}

/// Reading one nbf segment sets that field and moves one stage on.
#[verifier::rlimit(100)]
proof fn lemma_extract_stage_4(c: SpecClaims)
    ensures
        spec_extract(claims_fields_from(c, 4), claims_acc(c, 4)) == spec_extract(
            claims_fields_from(c, 5),
            claims_acc(c, 5),
        ),
{
    lemma_reserved_distinct();
    let fs = claims_fields_from(c, 4);
    let rest = claims_fields_from(c, 5);
    match c.nbf {
        Some(x) => {
            assert(fs[0] == claims_seg(c, 4)[0]);
            assert(fs.skip(1) =~= rest);
            assert(claims_acc(c, 5) == SpecClaims { nbf: Some(x), ..claims_acc(c, 4) });
        },
        None => {
            assert(fs =~= rest);
            assert(claims_acc(c, 5) == claims_acc(c, 4));
        },
    }
}

/// Reading one iat segment sets that field and moves one stage on.
#[verifier::rlimit(100)]
proof fn lemma_extract_stage_5(c: SpecClaims)
    ensures
        spec_extract(claims_fields_from(c, 5), claims_acc(c, 5)) == spec_extract(
            claims_fields_from(c, 6),
            claims_acc(c, 6),
        ),
{
    lemma_reserved_distinct();
    let fs = claims_fields_from(c, 5);
    let rest = claims_fields_from(c, 6);
    match c.iat {
        Some(x) => {
            assert(fs[0] == claims_seg(c, 5)[0]);
            assert(fs.skip(1) =~= rest);
            assert(claims_acc(c, 6) == SpecClaims { iat: Some(x), ..claims_acc(c, 5) });
        },
        None => {
            assert(fs =~= rest);
            assert(claims_acc(c, 6) == claims_acc(c, 5));
        },
    }
}

/// Reading one jti segment sets that field and moves one stage on.
#[verifier::rlimit(100)]
proof fn lemma_extract_stage_6(c: SpecClaims)
    ensures
        spec_extract(claims_fields_from(c, 6), claims_acc(c, 6)) == spec_extract(
            claims_fields_from(c, 7),
            claims_acc(c, 7),
        ),
{
    lemma_reserved_distinct();
    let fs = claims_fields_from(c, 6);
    let rest = claims_fields_from(c, 7);
    match c.jti {
        Some(x) => {
            assert(fs[0] == claims_seg(c, 6)[0]);
            assert(fs.skip(1) =~= rest);
            assert(claims_acc(c, 7) == SpecClaims { jti: Some(x), ..claims_acc(c, 6) });
        },
        None => {
            assert(fs =~= rest);
            assert(claims_acc(c, 7) == claims_acc(c, 6));
        },
    }
}

/// Extraction appends non-reserved fields to the custom claims, one by
/// one, and never fails on them.
proof fn lemma_extract_customs(fields: Seq<(Seq<char>, SpecJson)>, acc: SpecClaims)
    requires
        forall|i: int| 0 <= i < fields.len() ==> !reserved_key(#[trigger] fields[i].0),
    ensures
        spec_extract(fields, acc) == Some(SpecClaims { custom: acc.custom + fields, ..acc }),
    decreases fields.len(),
{
    if fields.len() == 0 {
        assert(acc.custom + fields =~= acc.custom);
        assert(SpecClaims { custom: acc.custom + fields, ..acc } == acc);
    } else {
        let f0 = fields[0];
        assert(!reserved_key(f0.0));
        assert(f0.0 != seq!['i', 's', 's'] && f0.0 != seq!['s', 'u', 'b'] && f0.0 != seq![
            'a',
            'u',
            'd',
        ] && f0.0 != seq!['e', 'x', 'p'] && f0.0 != seq!['n', 'b', 'f'] && f0.0 != seq![
            'i',
            'a',
            't',
        ] && f0.0 != seq!['j', 't', 'i']) by {
            if f0.0 == seq!['i', 's', 's'] {
                assert(reserved_key(f0.0));
            }
            if f0.0 == seq!['s', 'u', 'b'] {
                assert(reserved_key(f0.0));
            }
            if f0.0 == seq!['a', 'u', 'd'] {
                assert(reserved_key(f0.0));
            }
            if f0.0 == seq!['e', 'x', 'p'] {
                assert(reserved_key(f0.0));
            }
            if f0.0 == seq!['n', 'b', 'f'] {
                assert(reserved_key(f0.0));
            }
            if f0.0 == seq!['i', 'a', 't'] {
                assert(reserved_key(f0.0));
            }
            if f0.0 == seq!['j', 't', 'i'] {
                assert(reserved_key(f0.0));
            }
        }
        let acc2 = SpecClaims { custom: acc.custom.push(f0), ..acc };
        assert forall|i: int| 0 <= i < fields.skip(1).len() implies !reserved_key(
            #[trigger] fields.skip(1)[i].0,
        ) by {
            assert(fields.skip(1)[i] == fields[i + 1]);
        }
        lemma_extract_customs(fields.skip(1), acc2);
        assert(acc2.custom + fields.skip(1) =~= acc.custom + fields);
    }
}

/// The staged field list starts as the whole flat field list.
#[verifier::rlimit(100)]
#[verifier::spinoff_prover]
proof fn lemma_claims_fields_from_zero(c: SpecClaims)
    ensures
        claims_fields(c) =~= claims_fields_from(c, 0),
{
    let s0 = claims_seg(c, 0);
    let s1 = claims_seg(c, 1);
    let s2 = claims_seg(c, 2);
    let s3 = claims_seg(c, 3);
    let s4 = claims_seg(c, 4);
    let s5 = claims_seg(c, 5);
    let s6 = claims_seg(c, 6);
    assert(claims_fields_from(c, 7) == c.custom);
    assert(claims_fields_from(c, 6) == s6 + c.custom);
    assert(claims_fields_from(c, 5) == s5 + (s6 + c.custom));
    assert(claims_fields_from(c, 4) == s4 + (s5 + (s6 + c.custom)));
    assert(claims_fields_from(c, 3) == s3 + (s4 + (s5 + (s6 + c.custom))));
    assert(claims_fields_from(c, 2) == s2 + (s3 + (s4 + (s5 + (s6 + c.custom)))));
    assert(claims_fields_from(c, 1) == s1 + (s2 + (s3 + (s4 + (s5 + (s6 + c.custom))))));
    assert(claims_fields_from(c, 0) == s0 + (s1 + (s2 + (s3 + (s4 + (s5 + (s6 + c.custom)))))));
    // peel the left-grouped flat list into the right-grouped staged one,
    // one association at a time
    let l5 = s0 + s1 + s2 + s3 + s4 + s5;
    assert(claims_fields(c) =~= l5 + (s6 + c.custom));
    let l4 = s0 + s1 + s2 + s3 + s4;
    assert(l5 + (s6 + c.custom) =~= l4 + (s5 + (s6 + c.custom)));
    let l3 = s0 + s1 + s2 + s3;
    assert(l4 + (s5 + (s6 + c.custom)) =~= l3 + (s4 + (s5 + (s6 + c.custom))));
    let l2 = s0 + s1 + s2;
    assert(l3 + (s4 + (s5 + (s6 + c.custom))) =~= l2 + (s3 + (s4 + (s5 + (s6 + c.custom)))));
    let l1 = s0 + s1;
    assert(l2 + (s3 + (s4 + (s5 + (s6 + c.custom)))) =~= l1 + (s2 + (s3 + (s4 + (s5 + (s6
        + c.custom))))));
    assert(l1 + (s2 + (s3 + (s4 + (s5 + (s6 + c.custom))))) =~= s0 + (s1 + (s2 + (s3 + (s4 + (s5
        + (s6 + c.custom)))))));
}

/// Extraction recovers a claim set from its own field list.
#[verifier::rlimit(100)]
proof fn lemma_extract_claims_fields(c: SpecClaims)
    requires
        claims_wf(c),
    ensures
        spec_extract(claims_fields(c), empty_claims()) == Some(c),
{
    lemma_claims_fields_from_zero(c);
    assert(claims_acc(c, 0) == empty_claims());
    lemma_extract_stage_0(c);
    lemma_extract_stage_1(c);
    lemma_extract_stage_2(c);
    lemma_extract_stage_3(c);
    lemma_extract_stage_4(c);
    lemma_extract_stage_5(c);
    lemma_extract_stage_6(c);
    let a7 = claims_acc(c, 7);
    lemma_extract_customs(c.custom, a7);
    assert(a7.custom + c.custom =~= c.custom);
    assert(SpecClaims { custom: a7.custom + c.custom, ..a7 } == c);
}

/// The first dot of `bs` at or after `from` stands at `j` when `j` is the
/// first dot there.
proof fn lemma_find_dot_at(bs: Seq<u8>, from: nat, j: int)
    requires
        from <= j < bs.len(),
        bs[j] == 46,
        forall|k: int| from <= k < j ==> bs[k] != 46,
    ensures
        find_dot(bs, from) == j,
    decreases j - from,
{
    if from < j {
        lemma_find_dot_at(bs, from + 1, j);
    }
}

/// Serialized string values are well formed; so are the standard fields.
proof fn lemma_wf_str_arr(ss: Seq<Seq<char>>)
    ensures
        crate::json::wf_json_seq(str_arr(ss)),
    decreases ss.len(),
{
    reveal_with_fuel(crate::json::wf_json_seq, 2);
    reveal_with_fuel(crate::json::wf_json, 2);
    if ss.len() > 0 {
        lemma_wf_str_arr(ss.skip(1));
        assert(str_arr(ss)[0] == SpecJson::Str(ss[0]));
        assert(crate::json::wf_json(str_arr(ss)[0]));
        assert(str_arr(ss).skip(1) =~= str_arr(ss.skip(1)));
    }
}

/// Well-formedness of field lists concatenates.
proof fn lemma_wf_fields_concat(f1: Seq<(Seq<char>, SpecJson)>, f2: Seq<(Seq<char>, SpecJson)>)
    requires
        crate::json::wf_json_fields(f1),
        crate::json::wf_json_fields(f2),
    ensures
        crate::json::wf_json_fields(f1 + f2),
    decreases f1.len(),
{
    if f1.len() == 0 {
        assert(f1 + f2 =~= f2);
    } else {
        lemma_wf_fields_concat(f1.skip(1), f2);
        assert((f1 + f2)[0] == f1[0]);
        assert((f1 + f2).skip(1) =~= f1.skip(1) + f2);
    }
}

/// Timestamps within the signed 64-bit range.
pub open spec fn i64_range(t: int) -> bool {
    -0x8000000000000000 <= t <= 0x7fffffffffffffff
}

/// A claim set whose wire image is exact: non-reserved custom claims with
/// well-formed values, and timestamps that fit the wire's integers.
pub open spec fn claims_exact(c: SpecClaims) -> bool {
    &&& claims_wf(c)
    &&& crate::json::wf_json_fields(c.custom)
    &&& (c.exp matches Some(t) ==> i64_range(t))
    &&& (c.nbf matches Some(t) ==> i64_range(t))
    &&& (c.iat matches Some(t) ==> i64_range(t))
}

/// The view of any claim builder is exact.
pub proof fn lemma_builder_claims_exact(b: &JwtBuilder)
    requires
        claims_wf(b@),
    ensures
        claims_exact(b@),
{
    crate::json::lemma_deep_view_fields_wf(b.custom@);
}

/// The field list of an exact claim set serializes to a well-formed
/// object.
proof fn lemma_claims_fields_wf(c: SpecClaims)
    requires
        claims_exact(c),
    ensures
        wf_json(SpecJson::Obj(claims_fields(c))),
{
    reveal_with_fuel(crate::json::wf_json_fields, 3);
    reveal_with_fuel(crate::json::wf_json_seq, 3);
    let s1: Seq<(Seq<char>, SpecJson)> = match c.iss {
        Some(v) => seq![(seq!['i', 's', 's'], SpecJson::Arr(str_arr(v)))],
        None => Seq::empty(),
    };
    assert(crate::json::wf_json_fields(s1)) by {
        match c.iss {
            Some(v) => {
                lemma_wf_str_arr(v);
                assert(s1.skip(1) =~= Seq::<(Seq<char>, SpecJson)>::empty());
            },
            None => {},
        }
    }
    let s2: Seq<(Seq<char>, SpecJson)> = match c.sub {
        Some(sv) => seq![(seq!['s', 'u', 'b'], SpecJson::Str(sv))],
        None => Seq::empty(),
    };
    assert(crate::json::wf_json_fields(s2)) by {
        match c.sub {
            Some(sv) => {
                assert(s2.skip(1) =~= Seq::<(Seq<char>, SpecJson)>::empty());
            },
            None => {},
        }
    }
    let s3: Seq<(Seq<char>, SpecJson)> = match c.aud {
        Some(v) => seq![(seq!['a', 'u', 'd'], SpecJson::Arr(str_arr(v)))],
        None => Seq::empty(),
    };
    assert(crate::json::wf_json_fields(s3)) by {
        match c.aud {
            Some(v) => {
                lemma_wf_str_arr(v);
                assert(s3.skip(1) =~= Seq::<(Seq<char>, SpecJson)>::empty());
            },
            None => {},
        }
    }
    let s4: Seq<(Seq<char>, SpecJson)> = match c.exp {
        Some(t) => seq![(seq!['e', 'x', 'p'], SpecJson::Int(t))],
        None => Seq::empty(),
    };
    assert(crate::json::wf_json_fields(s4)) by {
        match c.exp {
            Some(t) => {
                assert(s4.skip(1) =~= Seq::<(Seq<char>, SpecJson)>::empty());
            },
            None => {},
        }
    }
    let s5: Seq<(Seq<char>, SpecJson)> = match c.nbf {
        Some(t) => seq![(seq!['n', 'b', 'f'], SpecJson::Int(t))],
        None => Seq::empty(),
    };
    assert(crate::json::wf_json_fields(s5)) by {
        match c.nbf {
            Some(t) => {
                assert(s5.skip(1) =~= Seq::<(Seq<char>, SpecJson)>::empty());
            },
            None => {},
        }
    }
    let s6: Seq<(Seq<char>, SpecJson)> = match c.iat {
        Some(t) => seq![(seq!['i', 'a', 't'], SpecJson::Int(t))],
        None => Seq::empty(),
    };
    assert(crate::json::wf_json_fields(s6)) by {
        match c.iat {
            Some(t) => {
                assert(s6.skip(1) =~= Seq::<(Seq<char>, SpecJson)>::empty());
            },
            None => {},
        }
    }
    let s7: Seq<(Seq<char>, SpecJson)> = match c.jti {
        Some(sv) => seq![(seq!['j', 't', 'i'], SpecJson::Str(sv))],
        None => Seq::empty(),
    };
    assert(crate::json::wf_json_fields(s7)) by {
        match c.jti {
            Some(sv) => {
                assert(s7.skip(1) =~= Seq::<(Seq<char>, SpecJson)>::empty());
            },
            None => {},
        }
    }
    lemma_wf_fields_concat(s1, s2);
    lemma_wf_fields_concat(s1 + s2, s3);
    lemma_wf_fields_concat(s1 + s2 + s3, s4);
    lemma_wf_fields_concat(s1 + s2 + s3 + s4, s5);
    lemma_wf_fields_concat(s1 + s2 + s3 + s4 + s5, s6);
    lemma_wf_fields_concat(s1 + s2 + s3 + s4 + s5 + s6, s7);
    lemma_wf_fields_concat(s1 + s2 + s3 + s4 + s5 + s6 + s7, c.custom);
    assert(claims_fields(c) == s1 + s2 + s3 + s4 + s5 + s6 + s7 + c.custom);
}

/// A string of plain printable ASCII characters serializes as itself.
proof fn lemma_ser_plain_word(w: Seq<char>)
    requires
        forall|i: int|
            0 <= i < w.len() ==> (0x20 <= ((#[trigger] w[i]) as u32) && (w[i] as u32) < 0x80
                && w[i] != '"' && w[i] != '\\'),
    ensures
        crate::json::ser_str_body(w) =~= w,
    decreases w.len(),
{
    if w.len() > 0 {
        assert(crate::json::esc_char(w[0]) =~= seq![w[0]]);
        assert forall|i: int|
            0 <= i < w.skip(1).len() implies (0x20 <= ((#[trigger] w.skip(1)[i]) as u32) && (w.skip(
            1,
        )[i] as u32) < 0x80 && w.skip(1)[i] != '"' && w.skip(1)[i] != '\\') by {
            assert(w.skip(1)[i] == w[i + 1]);
        }
        lemma_ser_plain_word(w.skip(1));
    }
}

/// The canonical header parses back as an object whose first `alg` field
/// is the string `HS256`.
#[verifier::rlimit(100)]
#[verifier::spinoff_prover]
proof fn lemma_header_parses()
    ensures
        all_ascii_bytes(spec_header_bytes()),
        parse_json(chars_of_bytes(spec_header_bytes())) matches Some(SpecJson::Obj(hf))
            && header_ok(hf),
{
    let alg_k = seq!['a', 'l', 'g'];
    let alg_v = seq!['H', 'S', '2', '5', '6'];
    let typ_k = seq!['t', 'y', 'p'];
    let typ_v = seq!['J', 'W', 'T'];
    let hf = seq![(alg_k, SpecJson::Str(alg_v)), (typ_k, SpecJson::Str(typ_v))];
    let hv = SpecJson::Obj(hf);
    assert(wf_json(hv)) by {
        reveal_with_fuel(crate::json::wf_json, 3);
        reveal_with_fuel(crate::json::wf_json_fields, 4);
        assert(hf.skip(1) =~= seq![(typ_k, SpecJson::Str(typ_v))]);
        assert(hf.skip(1).skip(1) =~= Seq::<(Seq<char>, SpecJson)>::empty());
    }
    crate::json::lemma_parse_ser_json(hv);
    lemma_ser_plain_word(alg_k);
    lemma_ser_plain_word(alg_v);
    lemma_ser_plain_word(typ_k);
    lemma_ser_plain_word(typ_v);
    assert(hf.skip(1) =~= seq![(typ_k, SpecJson::Str(typ_v))]);
    assert(crate::json::ser_fields(hf) =~= crate::json::ser_string(alg_k) + seq![':']
        + crate::json::ser_string(alg_v) + seq![','] + crate::json::ser_string(typ_k) + seq![':']
        + crate::json::ser_string(typ_v)) by {
        reveal_with_fuel(crate::json::ser_fields, 3);
    }
    assert(ser_value(hv) =~= chars_of_bytes(spec_header_bytes()));
    assert(header_ok(hf));
}

/// Round trip: a token encoded from an exact claim set under a key
/// decodes back to exactly those claims, under any policy and moment the
/// claims satisfy.
#[verifier::rlimit(100)]
pub proof fn lemma_encode_decode_round_trip(c: SpecClaims, key: Seq<u8>, v: Validation, now: int)
    requires
        claims_exact(c),
        check_policy(c, v, now) is None,
    ensures
        spec_decode(spec_encode(c, key), Some(key), v, now) == Ok::<SpecClaims, TokenError>(c),
{
    let h = b64_encode(spec_header_bytes(), true);
    let pb = bytes_of_chars(spec_payload_chars(c));
    let p = b64_encode(pb, true);
    let msg = h + seq![46u8] + p;
    let sig = hs256_signature(key, msg);
    let t = spec_encode(c, key);
    assert(t == msg + seq![46u8] + sig);
    lemma_b64_encode_bytes(spec_header_bytes(), true);
    lemma_b64_encode_bytes(pb, true);
    // the two dots stand right after the header and payload segments
    assert(t[h.len() as int] == 46) by {
        assert(t[h.len() as int] == (msg + seq![46u8] + sig)[h.len() as int]);
        assert(msg[h.len() as int] == (h + seq![46u8] + p)[h.len() as int]);
    }
    assert forall|k: int| 0 <= k < h.len() implies t[k] != 46 by {
        assert(t[k] == msg[k]);
        assert(msg[k] == h[k]);
    }
    lemma_find_dot_at(t, 0, h.len() as int);
    let j2 = h.len() + 1 + p.len();
    assert(t[j2 as int] == 46);
    assert forall|k: int| h.len() + 1 <= k < j2 implies t[k] != 46 by {
        assert(t[k] == msg[k]);
        assert(msg[k] == p[k - h.len() - 1]);
    }
    lemma_find_dot_at(t, (h.len() + 1) as nat, j2 as int);
    assert(spec_split3(t) == Some(
        (
            t.subrange(0, h.len() as int),
            t.subrange(h.len() as int + 1, j2 as int),
            t.subrange(j2 as int + 1, t.len() as int),
        ),
    ));
    assert(t.subrange(0, h.len() as int) =~= h);
    assert(t.subrange(h.len() as int + 1, j2 as int) =~= p);
    assert(t.subrange(j2 as int + 1, t.len() as int) =~= sig);
    // the header decodes, parses and names the right algorithm
    lemma_b64_round_trip(spec_header_bytes(), true);
    lemma_header_parses();
    lemma_b64_round_trip(pb, true);
    // the payload parses back to the field list
    crate::json::lemma_ser_ascii(SpecJson::Obj(claims_fields(c)));
    lemma_ascii_round_trip(pb, spec_payload_chars(c));
    assert(all_ascii_bytes(pb));
    assert(chars_of_bytes(pb) =~= spec_payload_chars(c));
    lemma_claims_fields_wf(c);
    crate::json::lemma_parse_ser_json(SpecJson::Obj(claims_fields(c)));
    assert(parse_json(chars_of_bytes(pb)) == Some(SpecJson::Obj(claims_fields(c))));
    lemma_extract_claims_fields(c);
}

/// Tampering: when a token carries a valid signature, no token with the
/// same header and payload but any other signature text decodes; it fails
/// with a signature mismatch.
pub proof fn lemma_signature_tamper(
    h: Seq<u8>,
    p: Seq<u8>,
    sig1: Seq<u8>,
    sig2: Seq<u8>,
    key: Seq<u8>,
    v: Validation,
    now: int,
)
    requires
        forall|k: int| 0 <= k < h.len() ==> #[trigger] h[k] != 46,
        forall|k: int| 0 <= k < p.len() ==> #[trigger] p[k] != 46,
        spec_decode(h + seq![46u8] + p + seq![46u8] + sig1, Some(key), v, now) is Ok,
        sig2 != sig1,
    ensures
        spec_decode(h + seq![46u8] + p + seq![46u8] + sig2, Some(key), v, now) == Err::<
            SpecClaims,
            TokenError,
        >(TokenError::SignatureMismatch),
{
    let t1 = h + seq![46u8] + p + seq![46u8] + sig1;
    let t2 = h + seq![46u8] + p + seq![46u8] + sig2;
    lemma_token_split(h, p, sig1);
    lemma_token_split(h, p, sig2);
    assert(sig1 == hs256_signature(key, h + seq![46u8] + p));
}

/// A token assembled from dot-free header and payload segments splits
/// back into exactly those segments.
proof fn lemma_token_split(h: Seq<u8>, p: Seq<u8>, sig: Seq<u8>)
    requires
        forall|k: int| 0 <= k < h.len() ==> #[trigger] h[k] != 46,
        forall|k: int| 0 <= k < p.len() ==> #[trigger] p[k] != 46,
    ensures
        spec_split3(h + seq![46u8] + p + seq![46u8] + sig) == Some((h, p, sig)),
{
    let t = h + seq![46u8] + p + seq![46u8] + sig;
    let msg = h + seq![46u8] + p;
    assert(t =~= msg + seq![46u8] + sig);
    assert(t[h.len() as int] == 46) by {
        assert(msg[h.len() as int] == (h + seq![46u8] + p)[h.len() as int]);
    }
    assert forall|k: int| 0 <= k < h.len() implies t[k] != 46 by {
        assert(t[k] == h[k]);
    }
    lemma_find_dot_at(t, 0, h.len() as int);
    let j2 = h.len() + 1 + p.len();
    assert(t[j2 as int] == 46);
    assert forall|k: int| h.len() + 1 <= k < j2 implies t[k] != 46 by {
        assert(t[k] == p[k - h.len() - 1]);
    }
    lemma_find_dot_at(t, (h.len() + 1) as nat, j2 as int);
    assert(t.subrange(0, h.len() as int) =~= h);
    assert(t.subrange(h.len() as int + 1, j2 as int) =~= p);
    assert(t.subrange(j2 as int + 1, t.len() as int) =~= sig);
}

/// The time window: a token that decodes at one moment is rejected as
/// expired at any moment past its expiration, and still accepted at any
/// moment inside its window.
pub proof fn lemma_decode_time_window(
    bs: Seq<u8>,
    key: Seq<u8>,
    v: Validation,
    now1: int,
    now2: int,
)
    requires
        v.validate_exp,
        spec_decode(bs, Some(key), v, now1) is Ok,
    ensures
        spec_decode(bs, Some(key), v, now1)->Ok_0.exp is Some,
        now2 > spec_decode(bs, Some(key), v, now1)->Ok_0.exp->0 ==> spec_decode(
            bs,
            Some(key),
            v,
            now2,
        ) == Err::<SpecClaims, TokenError>(TokenError::Expired),
        (now2 <= spec_decode(bs, Some(key), v, now1)->Ok_0.exp->0 && (spec_decode(
            bs,
            Some(key),
            v,
            now1,
        )->Ok_0.nbf matches Some(nbf) ==> now2 >= nbf)) ==> spec_decode(bs, Some(key), v, now2)
            == spec_decode(bs, Some(key), v, now1),
{
}

} // verus!
