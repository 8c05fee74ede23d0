use ausgarde::json::JsonValue;
use ausgarde::token::jwt::{decode_classified_at, JwtBuilder};
use ausgarde::token::{DateTimeUtc, SigningConfig, TokenError, Validation};

fn config() -> SigningConfig {
    SigningConfig::from_secret("token").unwrap()
}

#[test]
fn encode() {
    let cfg = config();
    let token = JwtBuilder::new()
        .iss(vec!["ausgarde".to_string()])
        .sub("test".to_string())
        .aud(vec!["ausgarde".to_string()])
        .exp(DateTimeUtc::now_add_15min())
        .iat(DateTimeUtc::now())
        .jti("test".to_string())
        .add_custom("test".to_string(), JsonValue::Str("test".to_string()))
        .unwrap()
        .encode(&cfg)
        .unwrap();

    let mut val = Validation::default();
    val.set_audience(vec!["ausgarde".to_string()]);
    val.set_issuer(vec!["ausgarde".to_string()]);

    let decoded = JwtBuilder::decode(&token, &val, &cfg).unwrap();

    assert_eq!(decoded.iss, Some(vec!["ausgarde".to_string()]));
    assert_eq!(decoded.sub, Some("test".to_string()));
    assert_eq!(decoded.aud, Some(vec!["ausgarde".to_string()]));
    assert_eq!(decoded.jti, Some("test".to_string()));
    assert_eq!(
        decoded.custom,
        vec![("test".to_string(), JsonValue::Str("test".to_string()))]
    );
}

#[test]
fn round_trip_all_fields() {
    let cfg = config();
    let claims = JwtBuilder::new_at(DateTimeUtc(1000))
        .iss(vec!["one".to_string(), "two".to_string()])
        .sub("subject".to_string())
        .aud(vec!["aud1".to_string()])
        .exp(DateTimeUtc(2000))
        .nbf(DateTimeUtc(500))
        .iat(DateTimeUtc(1000))
        .jti("id-1".to_string())
        .add_custom("num".to_string(), JsonValue::Int(-42))
        .unwrap()
        .add_custom("flag".to_string(), JsonValue::Bool(true))
        .unwrap()
        .add_custom("nothing".to_string(), JsonValue::Null)
        .unwrap()
        .add_custom(
            "list".to_string(),
            JsonValue::Arr(vec![
                JsonValue::Str("hello 🦀 \"quoted\" \\slash\n".to_string()),
                JsonValue::Obj(vec![("k".to_string(), JsonValue::Int(7))]),
            ]),
        )
        .unwrap();
    let token = claims.encode(&cfg).unwrap();
    let decoded =
        decode_classified_at(&token, &Validation::new(), &cfg, DateTimeUtc(1500))
            .unwrap();
    assert_eq!(decoded, claims);
}

#[test]
fn custom_claim_overwrites() {
    let b = JwtBuilder::new_at(DateTimeUtc(0))
        .add_custom("k".to_string(), JsonValue::Int(1))
        .unwrap()
        .add_custom("other".to_string(), JsonValue::Int(5))
        .unwrap()
        .add_custom("k".to_string(), JsonValue::Int(2))
        .unwrap();
    assert_eq!(
        b.custom,
        vec![
            ("k".to_string(), JsonValue::Int(2)),
            ("other".to_string(), JsonValue::Int(5)),
        ]
    );
}

#[test]
fn reserved_custom_claim_rejected() {
    let r = JwtBuilder::new_at(DateTimeUtc(0)).add_custom("exp".to_string(), JsonValue::Int(1));
    assert_eq!(r.unwrap_err(), TokenError::ReservedClaimName);
}

#[test]
fn missing_secret_is_typed_error() {
    let cfg = SigningConfig::unconfigured();
    let r = JwtBuilder::new_at(DateTimeUtc(0)).encode(&cfg);
    assert_eq!(r.unwrap_err(), TokenError::MissingSecret);
    let r = decode_classified_at(
        "a.b.c",
        &Validation::new(),
        &cfg,
        DateTimeUtc(0),
    );
    assert_eq!(r.unwrap_err(), TokenError::MissingSecret);
}

#[test]
fn base64_secret_resolution() {
    // "token" in standard base64
    let cfg_marked = SigningConfig::from_secret("base64:dG9rZW4=").unwrap();
    let cfg_raw = SigningConfig::from_secret("token").unwrap();
    let token = JwtBuilder::new_at(DateTimeUtc(0))
        .exp(DateTimeUtc(100))
        .encode(&cfg_marked)
        .unwrap();
    // the two configurations resolve to the same key bytes
    let decoded =
        decode_classified_at(&token, &Validation::new(), &cfg_raw, DateTimeUtc(50));
    assert!(decoded.is_ok());
    match SigningConfig::from_secret("base64:!!!") {
        Ok(_) => panic!("a bad base64 secret must be rejected"),
        Err(e) => assert_eq!(e, TokenError::InvalidSecret),
    }
}

#[test]
fn tampered_signature_rejected() {
    let cfg = config();
    let token = JwtBuilder::new_at(DateTimeUtc(0))
        .exp(DateTimeUtc(100))
        .sub("s".to_string())
        .encode(&cfg)
        .unwrap();
    let val = Validation::new();
    assert!(decode_classified_at(&token, &val, &cfg, DateTimeUtc(50)).is_ok());
    // flip one byte of the signature segment, at every position in turn
    let sig_start = token.rfind('.').unwrap() + 1;
    for i in sig_start..token.len() {
        let mut bytes = token.clone().into_bytes();
        bytes[i] = if bytes[i] == b'A' { b'B' } else { b'A' };
        let altered = String::from_utf8(bytes).unwrap();
        if altered == token {
            continue;
        }
        let r = decode_classified_at(&altered, &val, &cfg, DateTimeUtc(50));
        assert_eq!(r.unwrap_err(), TokenError::SignatureMismatch);
        assert!(JwtBuilder::decode(&altered, &val, &cfg).is_none());
    }
}

#[test]
fn wrong_key_rejected() {
    let cfg = config();
    let other = SigningConfig::from_secret("another-secret").unwrap();
    let token = JwtBuilder::new_at(DateTimeUtc(0))
        .exp(DateTimeUtc(100))
        .encode(&cfg)
        .unwrap();
    let r = decode_classified_at(&token, &Validation::new(), &other, DateTimeUtc(50));
    assert_eq!(r.unwrap_err(), TokenError::SignatureMismatch);
}

#[test]
fn expiration_window() {
    let cfg = config();
    let token = JwtBuilder::new_at(DateTimeUtc(0))
        .exp(DateTimeUtc(100))
        .nbf(DateTimeUtc(50))
        .encode(&cfg)
        .unwrap();
    let val = Validation::new();
    // strictly before expiration and at/after not-before: accepted
    assert!(decode_classified_at(&token, &val, &cfg, DateTimeUtc(50)).is_ok());
    assert!(decode_classified_at(&token, &val, &cfg, DateTimeUtc(99)).is_ok());
    // past expiration: rejected as expired
    assert_eq!(
        decode_classified_at(&token, &val, &cfg, DateTimeUtc(101)).unwrap_err(),
        TokenError::Expired
    );
    // before not-before: rejected as not yet valid
    assert_eq!(
        decode_classified_at(&token, &val, &cfg, DateTimeUtc(49)).unwrap_err(),
        TokenError::NotYetValid
    );
}

#[test]
fn issuer_and_audience_intersection() {
    let cfg = config();
    let token = JwtBuilder::new_at(DateTimeUtc(0))
        .exp(DateTimeUtc(100))
        .iss(vec!["us".to_string()])
        .aud(vec!["them".to_string(), "others".to_string()])
        .encode(&cfg)
        .unwrap();
    let mut val = Validation::new();
    val.set_issuer(vec!["us".to_string(), "eu".to_string()]);
    val.set_audience(vec!["others".to_string()]);
    assert!(decode_classified_at(&token, &val, &cfg, DateTimeUtc(50)).is_ok());
    let mut bad_iss = Validation::new();
    bad_iss.set_issuer(vec!["eu".to_string()]);
    assert_eq!(
        decode_classified_at(&token, &bad_iss, &cfg, DateTimeUtc(50)).unwrap_err(),
        TokenError::IssuerRejected
    );
    let mut bad_aud = Validation::new();
    bad_aud.set_audience(vec!["nobody".to_string()]);
    assert_eq!(
        decode_classified_at(&token, &bad_aud, &cfg, DateTimeUtc(50)).unwrap_err(),
        TokenError::AudienceRejected
    );
}

#[test]
fn malformed_tokens_rejected() {
    let cfg = config();
    let val = Validation::new();
    for t in ["", "no-dots", "one.dot", "a.b.c", "!!.!!.!!"] {
        let r = decode_classified_at(t, &val, &cfg, DateTimeUtc(0));
        assert_eq!(r.unwrap_err(), TokenError::MalformedToken);
    }
}

#[test]
fn interop_with_reference_jwt_crate() {
    // a token signed by this engine is accepted by the reference
    // implementation, byte for byte
    let cfg = config();
    let token = JwtBuilder::new_at(DateTimeUtc(0))
        .exp(DateTimeUtc(4102444800))
        .sub("interop".to_string())
        .encode(&cfg)
        .unwrap();
    let key = jsonwebtoken::DecodingKey::from_secret(b"token");
    let mut v = jsonwebtoken::Validation::new(jsonwebtoken::Algorithm::HS256);
    v.set_required_spec_claims(&["exp"]);
    let data = jsonwebtoken::decode::<serde_json::Value>(&token, &key, &v).unwrap();
    assert_eq!(data.claims["sub"], serde_json::Value::String("interop".to_string()));
    assert_eq!(data.claims["exp"], serde_json::Value::from(4102444800i64));
}

#[test]
fn json_text_round_trip() {
    let v = JsonValue::Obj(vec![(
        "a".to_string(),
        JsonValue::Arr(vec![
            JsonValue::Int(1),
            JsonValue::Null,
            JsonValue::Str("x\"y".to_string()),
        ]),
    )]);
    let text = ausgarde::json::to_json_string(&v);
    assert_eq!(text, "{\"a\":[1,null,\"x\\\"y\"]}");
    let chars: Vec<char> = text.chars().collect();
    let back = ausgarde::json::parse_json_exec(&chars).unwrap();
    assert_eq!(back, v);
}

#[test]
fn interop_accepts_reference_header() {
    // the reference implementation writes its header fields in the other
    // order; decode accepts any header that names this algorithm
    let mut claims = serde_json::Map::new();
    claims.insert(
        "sub".to_string(),
        serde_json::Value::String("x".to_string()),
    );
    claims.insert("exp".to_string(), serde_json::Value::from(4102444800i64));
    let token = jsonwebtoken::encode(
        &jsonwebtoken::Header::default(),
        &serde_json::Value::Object(claims),
        &jsonwebtoken::EncodingKey::from_secret(b"token"),
    )
    .unwrap();
    let decoded =
        decode_classified_at(&token, &Validation::new(), &config(), DateTimeUtc(0)).unwrap();
    assert_eq!(decoded.sub, Some("x".to_string()));
    assert_eq!(decoded.exp, Some(DateTimeUtc(4102444800)));
}

#[test]
fn wrong_algorithm_header_rejected() {
    let cfg = config();
    let token = JwtBuilder::new_at(DateTimeUtc(0))
        .exp(DateTimeUtc(100))
        .encode(&cfg)
        .unwrap();
    // replace the header segment with one naming another algorithm
    let header = "{\"alg\":\"HS384\",\"typ\":\"JWT\"}";
    let b64 = b64url_nopad(header.as_bytes());
    let rest = token.splitn(2, '.').nth(1).unwrap();
    let altered = format!("{}.{}", String::from_utf8(b64).unwrap(), rest);
    let r = decode_classified_at(&altered, &Validation::new(), &cfg, DateTimeUtc(50));
    assert_eq!(r.unwrap_err(), TokenError::MalformedToken);
}

/// A small base64url encoder, so the test can splice in a foreign header
/// segment.
fn b64url_nopad(bytes: &[u8]) -> Vec<u8> {
    const ALPHABET: &[u8; 64] = b"ABCDEFGHIJKLMNOPQRSTUVWXYZabcdefghijklmnopqrstuvwxyz0123456789-_";
    let mut out = Vec::new();
    for chunk in bytes.chunks(3) {
        let b0 = chunk[0] as u32;
        let b1 = *chunk.get(1).unwrap_or(&0) as u32;
        let b2 = *chunk.get(2).unwrap_or(&0) as u32;
        let n = (b0 << 16) | (b1 << 8) | b2;
        out.push(ALPHABET[(n >> 18) as usize & 63]);
        out.push(ALPHABET[(n >> 12) as usize & 63]);
        if chunk.len() > 1 {
            out.push(ALPHABET[(n >> 6) as usize & 63]);
        }
        if chunk.len() > 2 {
            out.push(ALPHABET[n as usize & 63]);
        }
    }
    out
}
