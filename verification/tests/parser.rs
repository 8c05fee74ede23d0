use ausgarde::parser::email::Email;
use ausgarde::parser::id::{IdError, UserId};
use ausgarde::parser::otp::Otp;
use ausgarde::parser::password::Password;
use ausgarde::parser::username::Username;
use ausgarde::parser::Parser;

#[test]
fn otp_valid() {
    assert!(Otp::<6, true, true>::valid("123456"));
    assert!(Otp::<6, true, true>::valid("abcdef"));
    assert!(Otp::<6, true, true>::valid("ABCDEF"));
    assert!(Otp::<6, true, true>::valid("aBcDeF"));
    assert!(!Otp::<6, true, true>::valid("12345"));
    assert!(!Otp::<6, true, true>::valid("1234567"));
    assert!(!Otp::<6, true, true>::valid("12345!"));
    assert!(!Otp::<6, true, true>::valid("12345 "));
    assert!(!Otp::<6, true, true>::valid("12345\n"));
    assert!(!Otp::<6, true, true>::valid("12345\t"));
    assert!(!Otp::<6, true, true>::valid("12345\r"));
}

#[test]
fn otp_digits_only() {
    assert!(Otp::<6, true, false>::valid("123456"));
    assert!(!Otp::<6, true, false>::valid("abcdef"));
    assert!(Otp::<6, false, true>::valid("abcdef"));
    assert!(!Otp::<6, false, true>::valid("123456"));
}

#[test]
fn otp_generate_is_valid() {
    let otp = Otp::<8, true, true>::generate();
    let otp2 = Otp::<8, true, true>::new("a1b2c3d4").unwrap();
    let _ = otp2;
    let _ = otp;
    let digits = Otp::<6, true, false>::generate();
    let _ = digits;
}

#[test]
fn password_valid() {
    for p in [
        "1Zwei3%padding",
        "Spaces?? 123456789",
        "🦀🦀🦀🦀Crab🦀 123 🦀Crab🦀🦀🦀🦀",
    ] {
        assert!(Password::valid(p));
    }
}

#[test]
fn password_invalid() {
    for p in ["invalid:(", "short", "123%no"] {
        assert!(!Password::valid(p));
    }
}

#[test]
fn password_boundaries() {
    assert!(Password::valid("Abcdefg!"));
    assert!(!Password::valid("abcdefgh"));
    assert!(Password::valid("short1A!"));
    assert!(!Password::valid("Abcdef!"));
}

#[test]
fn username_valid() {
    for d in [".hello.world.", "username", "._.fancy._."] {
        assert!(Username::valid(d));
    }
}

#[test]
fn username_invalid() {
    for d in [".hello..world.", "user name", "a"] {
        assert!(!Username::valid(d));
    }
}

#[test]
fn username_boundaries() {
    assert!(Username::valid("ab"));
    assert!(!Username::valid("a"));
    assert!(Username::valid("abcdefghijklmnopqrstuvwxyz012345"));
    assert!(!Username::valid("abcdefghijklmnopqrstuvwxyz0123456"));
    assert!(Username::new("ab").is_some());
    assert!(Username::new("hello..world").is_none());
}

#[test]
fn email_valid_cases() {
    assert!(Email::valid("a@b.com"));
    assert!(!Email::valid("a..b@c.com"));
    assert!(Email::new("a@b.com").is_some());
    assert!(Email::new("a..b@c.com").is_none());
    assert!(Email::valid("\"quoted local\"@example.com"));
    assert!(Email::valid("name@[127.0.0.1]"));
    assert!(!Email::valid("no-at-sign"));
    assert!(!Email::valid("@nodomain"));
    assert!(!Email::valid("nolocal@"));
    assert!(Email::valid("a=b@c"));
}

#[test]
fn identifier_text_round_trip() {
    let id = UserId::new();
    let text = id.to_string();
    assert_eq!(text.len(), 26);
    let back = UserId::parse(&text).unwrap();
    assert_eq!(back, id);
}

#[test]
fn identifier_bytes_round_trip() {
    let id = UserId::new();
    let bytes = id.to_bytes();
    assert_eq!(bytes.len(), 16);
    let back = UserId::from_bytes(&bytes).unwrap();
    assert_eq!(back, id);
}

#[test]
fn identifier_errors() {
    assert_eq!(
        UserId::parse("tooshort"),
        Err(IdError::MalformedIdentifier)
    );
    assert_eq!(
        UserId::parse("!!!!!!!!!!!!!!!!!!!!!!!!!!"),
        Err(IdError::MalformedIdentifier)
    );
    // 26 characters but the first digit is too large to fit 128 bits
    assert_eq!(
        UserId::parse("ZZZZZZZZZZZZZZZZZZZZZZZZZZ"),
        Err(IdError::MalformedIdentifier)
    );
    assert_eq!(UserId::from_bytes(&vec![0u8; 15]), Err(IdError::InvalidLength));
    assert_eq!(UserId::from_bytes(&vec![0u8; 17]), Err(IdError::InvalidLength));
}

#[test]
fn identifier_known_value() {
    let id = UserId::from_bytes(&vec![0u8; 16]).unwrap();
    assert_eq!(id.to_string(), "00000000000000000000000000");
    let max = UserId::from_bytes(&vec![255u8; 16]).unwrap();
    assert_eq!(max.to_string(), "7ZZZZZZZZZZZZZZZZZZZZZZZZZ");
    assert_eq!(UserId::parse("7ZZZZZZZZZZZZZZZZZZZZZZZZZ").unwrap(), max);
}

#[test]
fn identifier_timestamps_order() {
    let a = UserId::new();
    let b = UserId::new();
    assert!(a.timestamp_ms() <= b.timestamp_ms());
    assert!(a.to_string() <= b.to_string() || a.timestamp_ms() == b.timestamp_ms());
}

#[test]
fn password_hash_round_trip() {
    let p = Password::new("Abcdefg!").unwrap();
    let checker = Password::new("Abcdefg!").unwrap();
    let other = Password::new("Different9$").unwrap();
    let hash = p.to_argon2_hash().unwrap();
    assert!(checker.verify_password(&hash).unwrap());
    assert!(!other.verify_password(&hash).unwrap());
    assert!(checker.verify_password("not a hash").is_err());
}

#[test]
fn from_unchecked_wraps_raw() {
    let e = Email::from_unchecked("not validated");
    assert_eq!(e.0, "not validated");
    let u = Username::from_unchecked("x");
    assert_eq!(u.0, "x");
}

#[test]
fn identifier_from_parts_layout() {
    let id = UserId::from_parts(1, 0, 5);
    assert_eq!(id.timestamp_ms(), 1);
    let bytes = id.to_bytes();
    assert_eq!(bytes[5], 1);
    assert_eq!(bytes[15], 5);
    // a clock before the epoch clamps to zero
    let clamped = UserId::from_parts(-50, 7, 0);
    assert_eq!(clamped.timestamp_ms(), 0);
    // only the low sixteen bits of the last draw are used
    let masked = UserId::from_parts(0, 0, 0x12345);
    assert_eq!(masked.to_bytes()[14], 0x23);
    assert_eq!(masked.to_bytes()[15], 0x45);
}
