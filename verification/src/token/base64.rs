//! Base64 over bytes: the URL-safe unpadded alphabet for token segments,
//! and the standard padded alphabet for configured secrets.

use vstd::prelude::*;

verus! {

/// The alphabet byte for a digit below 64. `url` selects `-` and `_` in
/// place of `+` and `/`.
pub open spec fn b64_digit_byte(d: int, url: bool) -> u8 {
    if d < 26 {
        (65 + d) as u8
    } else if d < 52 {
        (97 + d - 26) as u8
    } else if d < 62 {
        (48 + d - 52) as u8
    } else if d == 62 {
        if url {
            45
        } else {
            43
        }
    } else {
        if url {
            95
        } else {
            47
        }
    }
}

/// The digit of an alphabet byte, or -1.
pub open spec fn b64_byte_val(b: u8, url: bool) -> int {
    if 65 <= b && b <= 90 {
        b - 65
    } else if 97 <= b && b <= 122 {
        b - 97 + 26
    } else if 48 <= b && b <= 57 {
        b - 48 + 52
    } else if b == 45 && url {
        62
    } else if b == 43 && !url {
        62
    } else if b == 95 && url {
        63
    } else if b == 47 && !url {
        63
    } else {
        -1
    }
}

/// The alphabet maps invert one another.
pub proof fn lemma_b64_byte_val(d: int, url: bool)
    requires
        0 <= d < 64,
    ensures
        b64_byte_val(b64_digit_byte(d, url), url) == d,
        b64_digit_byte(d, url) != 46,
        b64_digit_byte(d, url) != 61,
        b64_digit_byte(d, url) < 128,
{
}

/// The base64 text of a byte sequence, group of three by group of three.
/// The standard alphabet pads the last group with `=`; the URL-safe
/// alphabet leaves it short.
pub open spec fn b64_encode(bs: Seq<u8>, url: bool) -> Seq<u8>
    decreases bs.len(),
{
    if bs.len() == 0 {
        Seq::empty()
    } else if bs.len() == 1 {
        let b0 = bs[0] as int;
        let two = seq![b64_digit_byte(b0 / 4, url), b64_digit_byte(b0 % 4 * 16, url)];
        if url {
            two
        } else {
            two + seq![61u8, 61u8]
        }
    } else if bs.len() == 2 {
        let b0 = bs[0] as int;
        let b1 = bs[1] as int;
        let three = seq![
            b64_digit_byte(b0 / 4, url),
            b64_digit_byte(b0 % 4 * 16 + b1 / 16, url),
            b64_digit_byte(b1 % 16 * 4, url),
        ];
        if url {
            three
        } else {
            three + seq![61u8]
        }
    } else {
        let b0 = bs[0] as int;
        let b1 = bs[1] as int;
        let b2 = bs[2] as int;
        seq![
            b64_digit_byte(b0 / 4, url),
            b64_digit_byte(b0 % 4 * 16 + b1 / 16, url),
            b64_digit_byte(b1 % 16 * 4 + b2 / 64, url),
            b64_digit_byte(b2 % 64, url),
        ] + b64_encode(bs.skip(3), url)
    }
}

/// The bytes a base64 text denotes, or nothing when the text is not
/// canonical for the chosen alphabet.
pub open spec fn b64_decode(cs: Seq<u8>, url: bool) -> Option<Seq<u8>>
    decreases cs.len(),
{
    if cs.len() == 0 {
        Some(Seq::empty())
    } else if cs.len() == 1 {
        None
    } else if cs.len() == 2 {
        let v0 = b64_byte_val(cs[0], url);
        let v1 = b64_byte_val(cs[1], url);
        if url && v0 >= 0 && v1 >= 0 && v1 % 16 == 0 {
            Some(seq![(v0 * 4 + v1 / 16) as u8])
        } else {
            None
        }
    } else if cs.len() == 3 {
        let v0 = b64_byte_val(cs[0], url);
        let v1 = b64_byte_val(cs[1], url);
        let v2 = b64_byte_val(cs[2], url);
        if url && v0 >= 0 && v1 >= 0 && v2 >= 0 && v2 % 4 == 0 {
            Some(seq![(v0 * 4 + v1 / 16) as u8, (v1 % 16 * 16 + v2 / 4) as u8])
        } else {
            None
        }
    } else if cs.len() == 4 && !url && cs[3] == 61 {
        let v0 = b64_byte_val(cs[0], url);
        let v1 = b64_byte_val(cs[1], url);
        let v2 = b64_byte_val(cs[2], url);
        if cs[2] == 61 {
            if v0 >= 0 && v1 >= 0 && v1 % 16 == 0 {
                Some(seq![(v0 * 4 + v1 / 16) as u8])
            } else {
                None
            }
        } else {
            if v0 >= 0 && v1 >= 0 && v2 >= 0 && v2 % 4 == 0 {
                Some(seq![(v0 * 4 + v1 / 16) as u8, (v1 % 16 * 16 + v2 / 4) as u8])
            } else {
                None
            }
        }
    } else {
        let v0 = b64_byte_val(cs[0], url);
        let v1 = b64_byte_val(cs[1], url);
        let v2 = b64_byte_val(cs[2], url);
        let v3 = b64_byte_val(cs[3], url);
        if v0 >= 0 && v1 >= 0 && v2 >= 0 && v3 >= 0 {
            match b64_decode(cs.skip(4), url) {
                Some(rest) => Some(
                    seq![
                        (v0 * 4 + v1 / 16) as u8,
                        (v1 % 16 * 16 + v2 / 4) as u8,
                        (v2 % 4 * 64 + v3) as u8,
                    ] + rest,
                ),
                None => None,
            }
        } else {
            None
        }
    }
}

/// The group arithmetic of one three-byte block: the four digits are in
/// range and reassemble into the original bytes.
proof fn lemma_b64_group(b0: int, b1: int, b2: int)
    requires
        0 <= b0 < 256,
        0 <= b1 < 256,
        0 <= b2 < 256,
    ensures
        0 <= b0 / 4 < 64,
        0 <= b0 % 4 * 16 + b1 / 16 < 64,
        0 <= b1 % 16 * 4 + b2 / 64 < 64,
        0 <= b2 % 64 < 64,
        (b0 / 4) * 4 + (b0 % 4 * 16 + b1 / 16) / 16 == b0,
        (b0 % 4 * 16 + b1 / 16) % 16 * 16 + (b1 % 16 * 4 + b2 / 64) / 4 == b1,
        (b1 % 16 * 4 + b2 / 64) % 4 * 64 + b2 % 64 == b2,
{
    vstd::arithmetic::div_mod::lemma_fundamental_div_mod(b0, 4);
    vstd::arithmetic::div_mod::lemma_fundamental_div_mod(b1, 16);
    vstd::arithmetic::div_mod::lemma_fundamental_div_mod(b2, 64);
    assert((16 * (b0 % 4) + b1 / 16) / 16 == b0 % 4) by {
        vstd::arithmetic::div_mod::lemma_div_multiples_vanish_fancy(b0 % 4, b1 / 16, 16);
    }
    assert((16 * (b0 % 4) + b1 / 16) % 16 == b1 / 16) by {
        vstd::arithmetic::div_mod::lemma_mod_multiples_vanish(b0 % 4, b1 / 16, 16);
        vstd::arithmetic::div_mod::lemma_small_mod((b1 / 16) as nat, 16nat);
    }
    assert((4 * (b1 % 16) + b2 / 64) / 4 == b1 % 16) by {
        vstd::arithmetic::div_mod::lemma_div_multiples_vanish_fancy(b1 % 16, b2 / 64, 4);
    }
    assert((4 * (b1 % 16) + b2 / 64) % 4 == b2 / 64) by {
        vstd::arithmetic::div_mod::lemma_mod_multiples_vanish(b1 % 16, b2 / 64, 4);
        vstd::arithmetic::div_mod::lemma_small_mod((b2 / 64) as nat, 4nat);
    }
    assert(b0 % 4 * 16 == 16 * (b0 % 4)) by (nonlinear_arith);
    assert(b1 % 16 * 4 == 4 * (b1 % 16)) by (nonlinear_arith);
}

/// Every byte of an encoding is in the alphabet or a padding byte, so it
/// is ASCII and never a dot.
pub proof fn lemma_b64_encode_bytes(bs: Seq<u8>, url: bool)
    ensures
        forall|i: int|
            0 <= i < b64_encode(bs, url).len() ==> #[trigger] b64_encode(bs, url)[i] < 128
                && b64_encode(bs, url)[i] != 46,
    decreases bs.len(),
{
    let cs = b64_encode(bs, url);
    if bs.len() == 0 {
    } else if bs.len() == 1 {
        lemma_b64_group(bs[0] as int, 0, 0);
        lemma_b64_byte_val(bs[0] as int / 4, url);
        lemma_b64_byte_val(bs[0] as int % 4 * 16, url);
    } else if bs.len() == 2 {
        lemma_b64_group(bs[0] as int, bs[1] as int, 0);
        lemma_b64_byte_val(bs[0] as int / 4, url);
        lemma_b64_byte_val(bs[0] as int % 4 * 16 + bs[1] as int / 16, url);
        lemma_b64_byte_val(bs[1] as int % 16 * 4, url);
    } else {
        lemma_b64_encode_bytes(bs.skip(3), url);
        lemma_b64_group(bs[0] as int, bs[1] as int, bs[2] as int);
        lemma_b64_byte_val(bs[0] as int / 4, url);
        lemma_b64_byte_val(bs[0] as int % 4 * 16 + bs[1] as int / 16, url);
        lemma_b64_byte_val(bs[1] as int % 16 * 4 + bs[2] as int / 64, url);
        lemma_b64_byte_val(bs[2] as int % 64, url);
        assert forall|i: int| 0 <= i < cs.len() implies #[trigger] cs[i] < 128 && cs[i] != 46 by {
            if i >= 4 {
                assert(cs[i] == b64_encode(bs.skip(3), url)[i - 4]);
            }
        }
    }
}

/// Decoding recovers every encoded byte sequence.
#[verifier::rlimit(100)]
pub proof fn lemma_b64_round_trip(bs: Seq<u8>, url: bool)
    ensures
        b64_decode(b64_encode(bs, url), url) == Some(bs),
    decreases bs.len(),
{
    let cs = b64_encode(bs, url);
    if bs.len() == 0 {
        assert(bs =~= Seq::<u8>::empty());
    } else if bs.len() == 1 {
        let b0 = bs[0] as int;
        lemma_b64_group(b0, 0, 0);
        lemma_b64_byte_val(b0 / 4, url);
        lemma_b64_byte_val(b0 % 4 * 16, url);
        assert(b64_decode(cs, url) == Some(seq![bs[0]]));
        assert(seq![bs[0]] =~= bs);
    } else if bs.len() == 2 {
        let b0 = bs[0] as int;
        let b1 = bs[1] as int;
        lemma_b64_group(b0, b1, 0);
        lemma_b64_byte_val(b0 / 4, url);
        lemma_b64_byte_val(b0 % 4 * 16 + b1 / 16, url);
        lemma_b64_byte_val(b1 % 16 * 4, url);
        assert(b64_decode(cs, url) == Some(seq![bs[0], bs[1]]));
        assert(seq![bs[0], bs[1]] =~= bs);
    } else {
        let b0 = bs[0] as int;
        let b1 = bs[1] as int;
        let b2 = bs[2] as int;
        lemma_b64_round_trip(bs.skip(3), url);
        lemma_b64_group(b0, b1, b2);
        lemma_b64_byte_val(b0 / 4, url);
        lemma_b64_byte_val(b0 % 4 * 16 + b1 / 16, url);
        lemma_b64_byte_val(b1 % 16 * 4 + b2 / 64, url);
        lemma_b64_byte_val(b2 % 64, url);
        let g = seq![
            b64_digit_byte(b0 / 4, url),
            b64_digit_byte(b0 % 4 * 16 + b1 / 16, url),
            b64_digit_byte(b1 % 16 * 4 + b2 / 64, url),
            b64_digit_byte(b2 % 64, url),
        ];
        assert(cs == g + b64_encode(bs.skip(3), url));
        assert(cs.len() >= 4);
        assert(cs[0] == g[0] && cs[1] == g[1] && cs[2] == g[2] && cs[3] == g[3]);
        assert(cs[3] != 61);
        assert(cs.skip(4) =~= b64_encode(bs.skip(3), url));
        assert(seq![bs[0], bs[1], bs[2]] + bs.skip(3) =~= bs);
    }
}

/// The alphabet byte of a digit, executable.
fn b64_digit_byte_exec(d: u8, url: bool) -> (r: u8)
    requires
        d < 64,
    ensures
        r == b64_digit_byte(d as int, url),
{
    if d < 26 {
        65 + d
    } else if d < 52 {
        97 + d - 26
    } else if d < 62 {
        48 + d - 52
    } else if d == 62 {
        if url {
            45
        } else {
            43
        }
    } else {
        if url {
            95
        } else {
            47
        }
    }
}

/// The digit of an alphabet byte, executable.
fn b64_byte_val_exec(b: u8, url: bool) -> (r: Option<u8>)
    ensures
        r is Some <==> b64_byte_val(b, url) >= 0,
        r matches Some(d) ==> d as int == b64_byte_val(b, url) && d < 64,
{
    if 65 <= b && b <= 90 {
        Some(b - 65)
    } else if 97 <= b && b <= 122 {
        Some(b - 97 + 26)
    } else if 48 <= b && b <= 57 {
        Some(b - 48 + 52)
    } else if b == 45 && url {
        Some(62)
    } else if b == 43 && !url {
        Some(62)
    } else if b == 95 && url {
        Some(63)
    } else if b == 47 && !url {
        Some(63)
    } else {
        None
    }
}

/// Encodes from position `i` on, appending to `out`.
fn encode_from(bs: &Vec<u8>, i: usize, out: &mut Vec<u8>, url: bool)
    requires
        i <= bs@.len(),
    ensures
        final(out)@ == old(out)@ + b64_encode(bs@.skip(i as int), url),
    decreases bs@.len() - i,
{
    let n = bs.len() - i;
    let ghost tail = bs@.skip(i as int);
    if n == 0 {
        proof {
            assert(final(out)@ =~= old(out)@ + b64_encode(tail, url));
        }
    } else if n == 1 {
        let b0 = bs[i];
        out.push(b64_digit_byte_exec(b0 / 4, url));
        out.push(b64_digit_byte_exec(b0 % 4 * 16, url));
        if !url {
            out.push(61);
            out.push(61);
        }
        proof {
            assert(tail[0] == bs@[i as int]);
            assert(final(out)@ =~= old(out)@ + b64_encode(tail, url));
        }
    } else if n == 2 {
        let b0 = bs[i];
        let b1 = bs[i + 1];
        out.push(b64_digit_byte_exec(b0 / 4, url));
        out.push(b64_digit_byte_exec(b0 % 4 * 16 + b1 / 16, url));
        out.push(b64_digit_byte_exec(b1 % 16 * 4, url));
        if !url {
            out.push(61);
        }
        proof {
            assert(tail[0] == bs@[i as int] && tail[1] == bs@[i as int + 1]);
            assert(final(out)@ =~= old(out)@ + b64_encode(tail, url));
        }
    } else {
        let b0 = bs[i];
        let b1 = bs[i + 1];
        let b2 = bs[i + 2];
        out.push(b64_digit_byte_exec(b0 / 4, url));
        out.push(b64_digit_byte_exec(b0 % 4 * 16 + b1 / 16, url));
        out.push(b64_digit_byte_exec(b1 % 16 * 4 + b2 / 64, url));
        out.push(b64_digit_byte_exec(b2 % 64, url));
        encode_from(bs, i + 3, out, url);
        proof {
            assert(tail[0] == bs@[i as int] && tail[1] == bs@[i as int + 1] && tail[2] == bs@[i as int
                + 2]);
            assert(tail.skip(3) =~= bs@.skip(i as int + 3));
            assert(final(out)@ =~= old(out)@ + b64_encode(tail, url));
        }
    }
}

/// The base64 text of `bs`.
pub fn b64_encode_exec(bs: &Vec<u8>, url: bool) -> (r: Vec<u8>)
    ensures
        r@ == b64_encode(bs@, url),
{
    let mut out: Vec<u8> = Vec::new();
    encode_from(bs, 0, &mut out, url);
    proof {
        assert(bs@.skip(0) =~= bs@);
    }
    out
}

/// Decodes from position `i` on; `None` when the text is not canonical.
fn decode_from(cs: &Vec<u8>, i: usize, url: bool) -> (r: Option<Vec<u8>>)
    requires
        i <= cs@.len(),
    ensures
        r is Some <==> b64_decode(cs@.skip(i as int), url) is Some,
        r matches Some(out) ==> b64_decode(cs@.skip(i as int), url) == Some(out@),
    decreases cs@.len() - i,
{
    let n = cs.len() - i;
    let ghost tail = cs@.skip(i as int);
    proof {
        if n >= 1 {
            assert(tail[0] == cs@[i as int]);
        }
        if n >= 2 {
            assert(tail[1] == cs@[i as int + 1]);
        }
        if n >= 3 {
            assert(tail[2] == cs@[i as int + 2]);
        }
        if n >= 4 {
            assert(tail[3] == cs@[i as int + 3]);
            assert(tail.skip(4) =~= cs@.skip(i as int + 4));
        }
    }
    if n == 0 {
        Some(Vec::new())
    } else if n == 1 {
        None
    } else if n == 2 {
        let v0 = b64_byte_val_exec(cs[i], url);
        let v1 = b64_byte_val_exec(cs[i + 1], url);
        match (v0, v1) {
            (Some(a), Some(b)) => {
                if url && b % 16 == 0 {
                    let mut out: Vec<u8> = Vec::new();
                    out.push(a * 4 + b / 16);
                    proof {
                        assert(out@ =~= seq![(a * 4 + b / 16) as u8]);
                    }
                    Some(out)
                } else {
                    None
                }
            },
            _ => None,
        }
    } else if n == 3 {
        let v0 = b64_byte_val_exec(cs[i], url);
        let v1 = b64_byte_val_exec(cs[i + 1], url);
        let v2 = b64_byte_val_exec(cs[i + 2], url);
        match (v0, v1, v2) {
            (Some(a), Some(b), Some(c)) => {
                if url && c % 4 == 0 {
                    let mut out: Vec<u8> = Vec::new();
                    out.push(a * 4 + b / 16);
                    out.push(b % 16 * 16 + c / 4);
                    proof {
                        assert(out@ =~= seq![(a * 4 + b / 16) as u8, (b % 16 * 16 + c / 4) as u8]);
                    }
                    Some(out)
                } else {
                    None
                }
            },
            _ => None,
        }
    } else if n == 4 && !url && cs[i + 3] == 61 {
        let v0 = b64_byte_val_exec(cs[i], url);
        let v1 = b64_byte_val_exec(cs[i + 1], url);
        let v2 = b64_byte_val_exec(cs[i + 2], url);
        if cs[i + 2] == 61 {
            match (v0, v1) {
                (Some(a), Some(b)) => {
                    if b % 16 == 0 {
                        let mut out: Vec<u8> = Vec::new();
                        out.push(a * 4 + b / 16);
                        proof {
                            assert(out@ =~= seq![(a * 4 + b / 16) as u8]);
                        }
                        Some(out)
                    } else {
                        None
                    }
                },
                _ => None,
            }
        } else {
            match (v0, v1, v2) {
                (Some(a), Some(b), Some(c)) => {
                    if c % 4 == 0 {
                        let mut out: Vec<u8> = Vec::new();
                        out.push(a * 4 + b / 16);
                        out.push(b % 16 * 16 + c / 4);
                        proof {
                            assert(out@ =~= seq![
                                (a * 4 + b / 16) as u8,
                                (b % 16 * 16 + c / 4) as u8,
                            ]);
                        }
                        Some(out)
                    } else {
                        None
                    }
                },
                _ => None,
            }
        }
    } else {
        let v0 = b64_byte_val_exec(cs[i], url);
        let v1 = b64_byte_val_exec(cs[i + 1], url);
        let v2 = b64_byte_val_exec(cs[i + 2], url);
        let v3 = b64_byte_val_exec(cs[i + 3], url);
        match (v0, v1, v2, v3) {
            (Some(a), Some(b), Some(c), Some(d)) => {
                match decode_from(cs, i + 4, url) {
                    Some(rest) => {
                        let mut out: Vec<u8> = Vec::new();
                        out.push(a * 4 + b / 16);
                        out.push(b % 16 * 16 + c / 4);
                        out.push(c % 4 * 64 + d);
                        let ghost head = out@;
                        let mut rest = rest;
                        out.append(&mut rest);
                        proof {
                            assert(tail.skip(4) =~= cs@.skip(i as int + 4));
                            assert(head =~= seq![
                                (a * 4 + b / 16) as u8,
                                (b % 16 * 16 + c / 4) as u8,
                                (c % 4 * 64 + d) as u8,
                            ]);
                        }
                        Some(out)
                    },
                    None => None,
                }
            },
            _ => None,
        }
    }
}

/// The bytes a base64 text denotes; `None` when it is not canonical.
pub fn b64_decode_exec(cs: &Vec<u8>, url: bool) -> (r: Option<Vec<u8>>)
    ensures
        r is Some <==> b64_decode(cs@, url) is Some,
        r matches Some(out) ==> b64_decode(cs@, url) == Some(out@),
{
    proof {
        assert(cs@.skip(0) =~= cs@);
    }
    decode_from(cs, 0, url)
}

} // verus!
