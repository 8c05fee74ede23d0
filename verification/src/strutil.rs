//! Helpers to move between strings, characters and bytes.

use vstd::prelude::*;

verus! {

/// The characters of a byte sequence read one byte per character.
/// Meaningful when every byte is ASCII.
pub open spec fn chars_of_bytes(bs: Seq<u8>) -> Seq<char> {
    Seq::new(bs.len(), |i: int| bs[i] as char)
}

/// The bytes of a character sequence written one byte per character.
/// Meaningful when every character is ASCII.
pub open spec fn bytes_of_chars(cs: Seq<char>) -> Seq<u8> {
    Seq::new(cs.len(), |i: int| (cs[i] as u32) as u8)
}

/// An ASCII character.
pub open spec fn is_ascii_char(c: char) -> bool {
    (c as u32) < 128
}

/// True when every character of the sequence is ASCII.
pub open spec fn all_ascii_chars(cs: Seq<char>) -> bool {
    forall|i: int| 0 <= i < cs.len() ==> is_ascii_char(#[trigger] cs[i])
}

/// True when every byte of the sequence is ASCII.
pub open spec fn all_ascii_bytes(bs: Seq<u8>) -> bool {
    forall|i: int| 0 <= i < bs.len() ==> #[trigger] bs[i] < 128
}

/// Reading bytes as characters and writing them back is the identity on
/// ASCII bytes, and the other way round on ASCII characters.
pub proof fn lemma_ascii_round_trip(bs: Seq<u8>, cs: Seq<char>)
    ensures
        all_ascii_bytes(bs) ==> bytes_of_chars(chars_of_bytes(bs)) =~= bs,
        all_ascii_chars(cs) ==> chars_of_bytes(bytes_of_chars(cs)) =~= cs,
        all_ascii_bytes(bs) ==> all_ascii_chars(chars_of_bytes(bs)),
        all_ascii_chars(cs) ==> all_ascii_bytes(bytes_of_chars(cs)),
{
    broadcast use vstd::utf8::char_u32_cast;

    if all_ascii_chars(cs) {
        assert forall|i: int| 0 <= i < cs.len() implies bytes_of_chars(cs)[i] < 128 && (
        bytes_of_chars(cs)[i] as char) == cs[i] by {
            let c = cs[i];
            assert(is_ascii_char(c));
            let u: u32 = c as u32;
            let b: u8 = u as u8;
            assert(b as u32 == u);
            vstd::utf8::char_u32_cast(c, u);
            vstd::utf8::char_u32_cast(b as char, (b as char) as u32);
            assert((b as char) as u32 == b as u32);
        }
        assert(chars_of_bytes(bytes_of_chars(cs)) =~= cs);
    }
}

/// The UTF-8 encoding of ASCII characters read from bytes is those bytes
/// again: one byte per character.
pub proof fn lemma_encode_utf8_ascii(bs: Seq<u8>)
    requires
        all_ascii_bytes(bs),
    ensures
        vstd::utf8::encode_utf8(chars_of_bytes(bs)) =~= bs,
{
    let cs = chars_of_bytes(bs);
    assert(vstd::utf8::is_ascii_chars(cs)) by {
        assert forall|i: int| 0 <= i < cs.len() implies '\0' <= #[trigger] cs[i] <= '\u{7f}' by {
            assert(cs[i] == bs[i] as char);
        }
    }
    vstd::utf8::is_ascii_chars_encode_utf8(cs);
    assert forall|i: int| 0 <= i < bs.len() implies vstd::utf8::encode_utf8(cs)[i] == bs[i] by {
        assert(cs[i] as u8 == vstd::utf8::encode_utf8(cs)[i]);
        assert((bs[i] as char) as u8 == bs[i]);
    }
}

/// Relies on String::push: appends exactly the given character.
#[verifier::external_body]
pub(crate) fn push_char(s: &mut String, c: char)
    ensures
        final(s)@ == old(s)@.push(c),
{
    s.push(c);
}

/// The characters of a string, as a vector.
pub fn chars_of_str(s: &str) -> (r: Vec<char>)
    ensures
        r@ == s@,
{
    let len = s.unicode_len();
    let mut r: Vec<char> = Vec::new();
    let mut i: usize = 0;
    while i < len
        invariant
            i <= len,
            len == s@.len(),
            r@ == s@.subrange(0, i as int),
        decreases len - i,
    {
        r.push(s.get_char(i));
        i += 1;
        proof {
            assert(r@ =~= s@.subrange(0, i as int));
        }
    }
    proof {
        assert(r@ =~= s@);
    }
    r
}

/// A string holding the given ASCII bytes, one character per byte.
pub fn string_of_ascii_bytes(bs: &Vec<u8>) -> (r: String)
    requires
        all_ascii_bytes(bs@),
    ensures
        r@ == chars_of_bytes(bs@),
        all_ascii_chars(r@),
{
    let mut r = String::new();
    let mut i: usize = 0;
    while i < bs.len()
        invariant
            i <= bs@.len(),
            all_ascii_bytes(bs@),
            r@ =~= chars_of_bytes(bs@.subrange(0, i as int)),
        decreases bs@.len() - i,
    {
        push_char(&mut r, bs[i] as char);
        i += 1;
        proof {
            assert(r@ =~= chars_of_bytes(bs@.subrange(0, i as int)));
        }
    }
    proof {
        assert(bs@.subrange(0, bs@.len() as int) =~= bs@);
        lemma_ascii_round_trip(bs@, r@);
    }
    r
}

/// The bytes of a vector of ASCII characters, one byte per character.
pub fn bytes_of_ascii_chars(cs: &Vec<char>) -> (r: Vec<u8>)
    requires
        all_ascii_chars(cs@),
    ensures
        r@ == bytes_of_chars(cs@),
        all_ascii_bytes(r@),
{
    let mut r: Vec<u8> = Vec::new();
    let mut i: usize = 0;
    while i < cs.len()
        invariant
            i <= cs@.len(),
            all_ascii_chars(cs@),
            r@ =~= bytes_of_chars(cs@.subrange(0, i as int)),
        decreases cs@.len() - i,
    {
        r.push((cs[i] as u32) as u8);
        i += 1;
        proof {
            assert(r@ =~= bytes_of_chars(cs@.subrange(0, i as int)));
        }
    }
    proof {
        assert(cs@.subrange(0, cs@.len() as int) =~= cs@);
        lemma_ascii_round_trip(r@, cs@);
    }
    r
}

} // verus!
