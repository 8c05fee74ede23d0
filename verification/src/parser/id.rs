//! Sortable, time-ordered identifiers: a 128-bit value made of a millisecond
//! timestamp and random bits, with a 26-character sortable text form and a
//! 16-byte binary form.

use crate::entropy::{os_next_u32, os_next_u64};
use crate::strutil::push_char;
use vstd::arithmetic::div_mod::{
    lemma_div_denominator, lemma_fundamental_div_mod, lemma_small_mod,
};
use vstd::arithmetic::power::{
    lemma_pow_adds, lemma_pow_increases, lemma_pow_positive, pow,
};
use vstd::prelude::*;

verus! {

broadcast use vstd::arithmetic::power::lemma_pow0, vstd::arithmetic::power::lemma_pow1;

/// Why a string or byte sequence is not an identifier.
#[derive(Debug, Clone, Copy, PartialEq, Eq, Structural)]
pub enum IdError {
    /// The text is not the fixed-length canonical alphabet.
    MalformedIdentifier,
    /// The binary form is not exactly 16 bytes.
    InvalidLength,
}

/// Number of characters in the text form.
pub const ID_TEXT_LENGTH: usize = 26;

/// Number of bytes in the binary form.
pub const ID_BYTE_LENGTH: usize = 16;

/// The digit sequence of `v` written in base `base` with `n` digits, most
/// significant first.
pub open spec fn digits_be(v: int, base: int, n: nat) -> Seq<int> {
    Seq::new(n, |i: int| (v / pow(base, (n - 1 - i) as nat)) % base)
}

/// The value of a digit sequence read in base `base`, most significant
/// first.
pub open spec fn fold_digits(ds: Seq<int>, base: int) -> int
    decreases ds.len(),
{
    if ds.len() == 0 {
        0
    } else {
        fold_digits(ds.drop_last(), base) * base + ds.last()
    }
}

/// Every entry of the sequence is a digit of base `base`.
pub open spec fn all_digits(ds: Seq<int>, base: int) -> bool {
    forall|i: int| 0 <= i < ds.len() ==> 0 <= #[trigger] ds[i] < base
}

/// Folding a digit sequence stays below `base^len`.
pub proof fn lemma_fold_bound(ds: Seq<int>, base: int)
    requires
        base >= 2,
        all_digits(ds, base),
    ensures
        0 <= fold_digits(ds, base) < pow(base, ds.len()),
    decreases ds.len(),
{
    lemma_pow_positive(base, ds.len());
    if ds.len() > 0 {
        lemma_fold_bound(ds.drop_last(), base);
        lemma_pow_positive(base, (ds.len() - 1) as nat);
        assert(pow(base, ds.len()) == base * pow(base, (ds.len() - 1) as nat)) by {
            lemma_pow_adds(base, 1nat, (ds.len() - 1) as nat);
        }
        assert(fold_digits(ds.drop_last(), base) * base <= (pow(base, (ds.len() - 1) as nat) - 1)
            * base) by (nonlinear_arith)
            requires
                fold_digits(ds.drop_last(), base) <= pow(base, (ds.len() - 1) as nat) - 1,
                base >= 2,
        ;
        assert((pow(base, (ds.len() - 1) as nat) - 1) * base + base == pow(base, (ds.len() - 1) as nat) * base) by (nonlinear_arith);
        assert(pow(base, (ds.len() - 1) as nat) * base == base * pow(base, (ds.len() - 1) as nat))
            by (nonlinear_arith);
        assert(fold_digits(ds.drop_last(), base) * base >= 0) by (nonlinear_arith)
            requires
                fold_digits(ds.drop_last(), base) >= 0,
                base >= 2,
        ;
    }
}

/// Folding a digit sequence stays below `(first digit + 1) * base^(len-1)`.
pub proof fn lemma_fold_first_digit_bound(ds: Seq<int>, base: int)
    requires
        base >= 2,
        ds.len() >= 1,
        all_digits(ds, base),
    ensures
        fold_digits(ds, base) < (ds[0] + 1) * pow(base, (ds.len() - 1) as nat),
    decreases ds.len(),
{
    let n = ds.len();
    if n == 1 {
        assert(fold_digits(ds, base) == fold_digits(ds.drop_last(), base) * base + ds.last());
        assert(fold_digits(ds.drop_last(), base) == 0);
        assert(pow(base, 0nat) == 1);
        assert(ds.last() == ds[0]);
        assert(ds[0] * 1 == ds[0]) by (nonlinear_arith);
        assert((ds[0] + 1) * 1 == ds[0] + 1) by (nonlinear_arith);
    } else {
        let dl = ds.drop_last();
        assert(dl[0] == ds[0]);
        lemma_fold_first_digit_bound(dl, base);
        lemma_pow_positive(base, (n - 2) as nat);
        assert(pow(base, (n - 1) as nat) == base * pow(base, (n - 2) as nat)) by {
            lemma_pow_adds(base, 1nat, (n - 2) as nat);
        }
        assert(fold_digits(dl, base) * base + ds.last() < (ds[0] + 1) * (base * pow(
            base,
            (n - 2) as nat,
        ))) by (nonlinear_arith)
            requires
                fold_digits(dl, base) <= (ds[0] + 1) * pow(base, (n - 2) as nat) - 1,
                ds.last() < base,
                ds[0] >= 0,
                base >= 2,
                pow(base, (n - 2) as nat) >= 1,
        ;
    }
}

/// Folding a digit sequence reaches at least `first digit * base^(len-1)`.
pub proof fn lemma_fold_first_digit_lower(ds: Seq<int>, base: int)
    requires
        base >= 2,
        ds.len() >= 1,
        all_digits(ds, base),
    ensures
        fold_digits(ds, base) >= ds[0] * pow(base, (ds.len() - 1) as nat),
    decreases ds.len(),
{
    let n = ds.len();
    if n == 1 {
        assert(fold_digits(ds.drop_last(), base) == 0);
        assert(ds.last() == ds[0]);
        assert(ds[0] * 1 == ds[0]) by (nonlinear_arith);
    } else {
        let dl = ds.drop_last();
        assert(dl[0] == ds[0]);
        lemma_fold_first_digit_lower(dl, base);
        lemma_pow_positive(base, (n - 2) as nat);
        assert(pow(base, (n - 1) as nat) == base * pow(base, (n - 2) as nat)) by {
            lemma_pow_adds(base, 1nat, (n - 2) as nat);
        }
        assert(fold_digits(dl, base) * base + ds.last() >= ds[0] * (base * pow(
            base,
            (n - 2) as nat,
        ))) by (nonlinear_arith)
            requires
                fold_digits(dl, base) >= ds[0] * pow(base, (n - 2) as nat),
                ds.last() >= 0,
                ds[0] >= 0,
                base >= 2,
                pow(base, (n - 2) as nat) >= 1,
        ;
    }
}

/// Reading the digits of `v` and folding them back yields `v`, for
/// `0 <= v < base^n`.
pub proof fn lemma_fold_digits_be(v: int, base: int, n: nat)
    requires
        base >= 2,
        0 <= v < pow(base, n),
    ensures
        all_digits(digits_be(v, base, n), base),
        fold_digits(digits_be(v, base, n), base) == v,
    decreases n,
{
    let ds = digits_be(v, base, n);
    assert forall|i: int| 0 <= i < n implies 0 <= #[trigger] ds[i] < base by {
        lemma_pow_positive(base, (n - 1 - i) as nat);
        vstd::arithmetic::div_mod::lemma_mod_bound(
            v / pow(base, (n - 1 - i) as nat),
            base,
        );
    }
    if n == 0 {
        assert(pow(base, 0nat) == 1);
    } else {
        lemma_pow_positive(base, (n - 1) as nat);
        assert(pow(base, n) == base * pow(base, (n - 1) as nat)) by {
            lemma_pow_adds(base, 1nat, (n - 1) as nat);
        }
        // v / base < base^(n-1)
        assert(v / base < pow(base, (n - 1) as nat)) by (nonlinear_arith)
            requires
                base >= 2,
                0 <= v,
                v < base * pow(base, (n - 1) as nat),
        ;
        assert(v / base >= 0) by (nonlinear_arith)
            requires
                v >= 0,
                base >= 2,
        ;
        lemma_fold_digits_be(v / base, base, (n - 1) as nat);
        let dsub = digits_be(v / base, base, (n - 1) as nat);
        assert(ds.drop_last() =~= dsub) by {
            assert forall|i: int| 0 <= i < n - 1 implies ds[i] == dsub[i] by {
                lemma_pow_positive(base, (n - 2 - i) as nat);
                lemma_div_denominator(v, base, pow(base, (n - 2 - i) as nat));
                assert(base * pow(base, (n - 2 - i) as nat) == pow(base, (n - 1 - i) as nat)) by {
                    lemma_pow_adds(base, 1nat, (n - 2 - i) as nat);
                }
            }
        }
        assert(ds.last() == (v / pow(base, 0nat)) % base);
        assert(pow(base, 0nat) == 1);
        assert(fold_digits(ds, base) == fold_digits(dsub, base) * base + v % base);
        assert((v / base) * base + v % base == v) by {
            lemma_fundamental_div_mod(v, base);
            assert(base * (v / base) == (v / base) * base) by (nonlinear_arith);
        }
    }
}

/// Writing a folded digit sequence out again yields the same digits.
pub proof fn lemma_digits_of_fold(ds: Seq<int>, base: int)
    requires
        base >= 2,
        all_digits(ds, base),
    ensures
        digits_be(fold_digits(ds, base), base, ds.len()) =~= ds,
    decreases ds.len(),
{
    let n = ds.len();
    let v = fold_digits(ds, base);
    lemma_fold_bound(ds, base);
    if n > 0 {
        let dl = ds.drop_last();
        let w = fold_digits(dl, base);
        lemma_fold_bound(dl, base);
        // v == w * base + last, 0 <= last < base, so v / base == w and v % base == last
        assert(v == w * base + ds.last());
        assert(v / base == w && v % base == ds.last()) by {
            lemma_fundamental_div_mod_converse_helper(v, base, w, ds.last());
        }
        lemma_digits_of_fold(dl, base);
        let out = digits_be(v, base, n);
        assert forall|i: int| 0 <= i < n implies out[i] == ds[i] by {
            if i == n - 1 {
                assert(pow(base, 0nat) == 1);
                assert(out[i] == (v / 1) % base);
            } else {
                lemma_pow_positive(base, (n - 2 - i) as nat);
                lemma_div_denominator(v, base, pow(base, (n - 2 - i) as nat));
                assert(base * pow(base, (n - 2 - i) as nat) == pow(base, (n - 1 - i) as nat)) by {
                    lemma_pow_adds(base, 1nat, (n - 2 - i) as nat);
                }
                assert(digits_be(w, base, (n - 1) as nat)[i] == ds[i]);
            }
        }
    }
}

/// From `v == w * base + r` with `0 <= r < base` conclude the quotient and
/// remainder of `v` by `base`.
proof fn lemma_fundamental_div_mod_converse_helper(v: int, base: int, w: int, r: int)
    requires
        base >= 2,
        0 <= r < base,
        0 <= w,
        v == w * base + r,
    ensures
        v / base == w,
        v % base == r,
{
    vstd::arithmetic::div_mod::lemma_fundamental_div_mod_converse(v, base, w, r);
}

/// The Crockford base-32 character for digit `d`.
pub open spec fn b32_char(d: int) -> char {
    if d == 0 { '0' } else if d == 1 { '1' } else if d == 2 { '2' } else if d == 3 { '3' }
    else if d == 4 { '4' } else if d == 5 { '5' } else if d == 6 { '6' } else if d == 7 { '7' }
    else if d == 8 { '8' } else if d == 9 { '9' } else if d == 10 { 'A' } else if d == 11 { 'B' }
    else if d == 12 { 'C' } else if d == 13 { 'D' } else if d == 14 { 'E' } else if d == 15 { 'F' }
    else if d == 16 { 'G' } else if d == 17 { 'H' } else if d == 18 { 'J' } else if d == 19 { 'K' }
    else if d == 20 { 'M' } else if d == 21 { 'N' } else if d == 22 { 'P' } else if d == 23 { 'Q' }
    else if d == 24 { 'R' } else if d == 25 { 'S' } else if d == 26 { 'T' } else if d == 27 { 'V' }
    else if d == 28 { 'W' } else if d == 29 { 'X' } else if d == 30 { 'Y' } else { 'Z' }
}

/// The digit value of a Crockford base-32 character, or -1 when the
/// character is not in the canonical alphabet.
pub open spec fn b32_val(c: char) -> int {
    if c == '0' { 0 } else if c == '1' { 1 } else if c == '2' { 2 } else if c == '3' { 3 }
    else if c == '4' { 4 } else if c == '5' { 5 } else if c == '6' { 6 } else if c == '7' { 7 }
    else if c == '8' { 8 } else if c == '9' { 9 } else if c == 'A' { 10 } else if c == 'B' { 11 }
    else if c == 'C' { 12 } else if c == 'D' { 13 } else if c == 'E' { 14 } else if c == 'F' { 15 }
    else if c == 'G' { 16 } else if c == 'H' { 17 } else if c == 'J' { 18 } else if c == 'K' { 19 }
    else if c == 'M' { 20 } else if c == 'N' { 21 } else if c == 'P' { 22 } else if c == 'Q' { 23 }
    else if c == 'R' { 24 } else if c == 'S' { 25 } else if c == 'T' { 26 } else if c == 'V' { 27 }
    else if c == 'W' { 28 } else if c == 'X' { 29 } else if c == 'Y' { 30 } else if c == 'Z' { 31 }
    else { -1 }
}

/// The two character maps invert one another on the canonical alphabet.
pub proof fn lemma_b32_char_val(d: int, c: char)
    ensures
        0 <= d < 32 ==> b32_val(b32_char(d)) == d,
        b32_val(c) >= 0 ==> b32_val(c) < 32 && b32_char(b32_val(c)) == c,
{
}

/// The digit values of a character sequence.
pub open spec fn char_digits(s: Seq<char>) -> Seq<int> {
    Seq::new(s.len(), |i: int| b32_val(s[i]))
}

/// The integer values of a byte sequence.
pub open spec fn byte_digits(bs: Seq<u8>) -> Seq<int> {
    Seq::new(bs.len(), |i: int| bs[i] as int)
}

/// A well-formed identifier text: 26 canonical characters whose value fits
/// in 128 bits (first digit below 8).
pub open spec fn id_text_wf(s: Seq<char>) -> bool {
    &&& s.len() == ID_TEXT_LENGTH
    &&& forall|i: int| 0 <= i < s.len() ==> b32_val(#[trigger] s[i]) >= 0
    &&& b32_val(s[0]) < 8
}

/// The value an identifier text denotes.
pub open spec fn id_text_value(s: Seq<char>) -> int {
    fold_digits(char_digits(s), 32)
}

/// The canonical text of an identifier value.
pub open spec fn spec_id_text(v: u128) -> Seq<char> {
    Seq::new(ID_TEXT_LENGTH as nat, |i: int| b32_char(digits_be(v as int, 32, ID_TEXT_LENGTH as nat)[i]))
}

/// The 16-byte big-endian binary form of an identifier value.
pub open spec fn spec_id_bytes(v: u128) -> Seq<u8> {
    Seq::new(ID_BYTE_LENGTH as nat, |i: int| digits_be(v as int, 256, ID_BYTE_LENGTH as nat)[i] as u8)
}

/// The value a 16-byte binary form denotes.
pub open spec fn id_bytes_value(bs: Seq<u8>) -> int {
    fold_digits(byte_digits(bs), 256)
}

/// `32^25 * 8 == 2^128`: the numeric bounds of the two digit forms.
proof fn lemma_id_pow_bounds()
    ensures
        pow(32, 25) == 0x20000000000000000000000000000000,
        pow(32, 26) == 0x400000000000000000000000000000000,
        pow(256, 16) == 0x100000000000000000000000000000000,
        pow(256, 15) == 0x1000000000000000000000000000000,
        pow(2, 80) == 0x100000000000000000000,
{
    vstd::arithmetic::power::lemma_pow1(32);
    lemma_pow_adds(32, 1nat, 1nat);
    assert(pow(32, 2) == 1024);
    lemma_pow_adds(32, 2nat, 2nat);
    assert(pow(32, 4) == 0x100000);
    lemma_pow_adds(32, 4nat, 4nat);
    assert(pow(32, 8) == 0x10000000000);
    lemma_pow_adds(32, 8nat, 8nat);
    assert(pow(32, 16) == 0x100000000000000000000);
    lemma_pow_adds(32, 16nat, 8nat);
    assert(pow(32, 24) == 0x1000000000000000000000000000000);
    lemma_pow_adds(32, 24nat, 1nat);
    assert(pow(32, 25) == 0x20000000000000000000000000000000);
    lemma_pow_adds(32, 25nat, 1nat);
    assert(pow(32, 26) == 0x400000000000000000000000000000000);
    vstd::arithmetic::power::lemma_pow1(256);
    lemma_pow_adds(256, 1nat, 1nat);
    assert(pow(256, 2) == 0x10000);
    lemma_pow_adds(256, 2nat, 2nat);
    assert(pow(256, 4) == 0x100000000);
    lemma_pow_adds(256, 4nat, 4nat);
    assert(pow(256, 8) == 0x10000000000000000);
    lemma_pow_adds(256, 8nat, 8nat);
    assert(pow(256, 16) == 0x100000000000000000000000000000000);
    lemma_pow_adds(256, 8nat, 4nat);
    assert(pow(256, 12) == 0x1000000000000000000000000);
    lemma_pow_adds(256, 12nat, 2nat);
    assert(pow(256, 14) == 0x10000000000000000000000000000);
    lemma_pow_adds(256, 14nat, 1nat);
    assert(pow(256, 15) == 0x1000000000000000000000000000000);
    vstd::arithmetic::power::lemma_pow1(2);
    lemma_pow_adds(2, 1nat, 1nat);
    assert(pow(2, 2) == 4);
    lemma_pow_adds(2, 2nat, 2nat);
    assert(pow(2, 4) == 16);
    lemma_pow_adds(2, 4nat, 4nat);
    assert(pow(2, 8) == 256);
    lemma_pow_adds(2, 8nat, 8nat);
    assert(pow(2, 16) == 0x10000);
    lemma_pow_adds(2, 16nat, 16nat);
    assert(pow(2, 32) == 0x100000000);
    lemma_pow_adds(2, 32nat, 32nat);
    assert(pow(2, 64) == 0x10000000000000000);
    lemma_pow_adds(2, 64nat, 16nat);
    assert(pow(2, 80) == 0x100000000000000000000);
}

/// A sortable, time-ordered, unique identifier: 48 bits of millisecond
/// timestamp followed by 80 random bits.
#[derive(Debug, Clone, Copy, PartialEq, Eq, Hash, PartialOrd, Ord, Structural)]
pub struct UserId {
    value: u128,
}

impl View for UserId {
    type V = u128;

    closed spec fn view(&self) -> u128 {
        self.value
    }
}

/// Relies on chrono::Utc::now and DateTime::timestamp_millis: milliseconds
/// since the Unix epoch at the moment of the call. The bound follows from
/// chrono's documented datetime range of about plus or minus 262000 years.
#[verifier::external_body]
fn now_unix_millis() -> (r: i64)
    ensures
        -9000000000000000 <= r <= 9000000000000000,
{
    chrono::Utc::now().timestamp_millis()
}

impl UserId {
    /// Draws a fresh identifier: the current millisecond timestamp in the
    /// top 48 bits, operating-system entropy in the remaining 80. What
    /// the identifier is for each drawn value is the contract of
    /// `from_parts`.
    pub fn new() -> Self {
        let ms = now_unix_millis();
        let hi = os_next_u64();
        let lo = os_next_u32();
        Self::from_parts(ms, hi, lo)
    }

    /// Lays out one identifier from a millisecond timestamp and the two
    /// random draws: the timestamp clamped to 48 bits in front of 80
    /// random bits.
    pub fn from_parts(ms: i64, hi: u64, lo: u32) -> (r: UserId)
        ensures
            r@ == (if ms <= 0 {
                0u128
            } else {
                (ms as u128) % 0x1000000000000
            }) * 0x100000000000000000000 + ((hi as u128) * 0x10000 + (lo as u128) % 0x10000),
    {
        let ts: u128 = if ms <= 0 {
            0
        } else {
            (ms as u128) % 0x1000000000000
        };
        let rand: u128 = (hi as u128) * 0x10000 + (lo as u128) % 0x10000;
        proof {
            assert(ts * 0x100000000000000000000 <= 0xffffffffffff * 0x100000000000000000000)
                by (nonlinear_arith)
                requires ts <= 0xffffffffffff,
            ;
            assert((hi as u128) * 0x10000 <= 0xffffffffffffffff * 0x10000) by (nonlinear_arith)
                requires hi <= 0xffffffffffffffff,
            ;
        }
        UserId { value: ts * 0x100000000000000000000 + rand }
    }

    /// The millisecond timestamp component.
    pub fn timestamp_ms(&self) -> (r: u64)
        ensures
            r as int == (self@ as int) / pow(2, 80),
    {
        proof {
            lemma_id_pow_bounds();
        }
        (self.value / 0x100000000000000000000) as u64
    }

    /// The digits of `v` in base `base`, least significant first.
    fn digits_of_value(v: u128, base: u64, n: usize) -> (r: Vec<u8>)
        requires
            2 <= base <= 256,
        ensures
            r@.len() == n,
            forall|j: int|
                0 <= j < n ==> #[trigger] r@[j] as int == digits_be(v as int, base as int, n as nat)[n - 1 - j],
    {
        let mut rest = v;
        let mut r: Vec<u8> = Vec::new();
        let mut k: usize = 0;
        while k < n
            invariant
                k <= n,
                2 <= base <= 256,
                r@.len() == k,
                rest as int == (v as int) / pow(base as int, k as nat),
                forall|j: int|
                    0 <= j < k ==> #[trigger] r@[j] as int == ((v as int) / pow(base as int, j as nat)) % (base as int),
            decreases n - k,
        {
            let d = (rest % (base as u128)) as u8;
            proof {
                lemma_pow_positive(base as int, k as nat);
                lemma_div_denominator(v as int, pow(base as int, k as nat), base as int);
                lemma_pow_adds(base as int, k as nat, 1nat);
            }
            r.push(d);
            rest = rest / (base as u128);
            k += 1;
        }
        proof {
            assert forall|j: int| 0 <= j < n implies #[trigger] r@[j] as int == digits_be(v as int, base as int, n as nat)[n - 1 - j] by {
                assert(digits_be(v as int, base as int, n as nat)[n - 1 - j] == ((v as int) / pow(base as int, j as nat)) % (base as int));
            }
        }
        r
    }

    /// The Crockford base-32 character for a digit.
    fn b32_char_exec(d: u8) -> (c: char)
        requires
            d < 32,
        ensures
            c == b32_char(d as int),
    {
        if d == 0 { '0' } else if d == 1 { '1' } else if d == 2 { '2' } else if d == 3 { '3' }
        else if d == 4 { '4' } else if d == 5 { '5' } else if d == 6 { '6' } else if d == 7 { '7' }
        else if d == 8 { '8' } else if d == 9 { '9' } else if d == 10 { 'A' } else if d == 11 { 'B' }
        else if d == 12 { 'C' } else if d == 13 { 'D' } else if d == 14 { 'E' } else if d == 15 { 'F' }
        else if d == 16 { 'G' } else if d == 17 { 'H' } else if d == 18 { 'J' } else if d == 19 { 'K' }
        else if d == 20 { 'M' } else if d == 21 { 'N' } else if d == 22 { 'P' } else if d == 23 { 'Q' }
        else if d == 24 { 'R' } else if d == 25 { 'S' } else if d == 26 { 'T' } else if d == 27 { 'V' }
        else if d == 28 { 'W' } else if d == 29 { 'X' } else if d == 30 { 'Y' } else { 'Z' }
    }

    /// The digit value of a Crockford base-32 character, if it has one.
    fn b32_val_exec(c: char) -> (r: Option<u8>)
        ensures
            r is Some <==> b32_val(c) >= 0,
            r is Some ==> r->0 as int == b32_val(c),
    {
        if c == '0' { Some(0) } else if c == '1' { Some(1) } else if c == '2' { Some(2) }
        else if c == '3' { Some(3) } else if c == '4' { Some(4) } else if c == '5' { Some(5) }
        else if c == '6' { Some(6) } else if c == '7' { Some(7) } else if c == '8' { Some(8) }
        else if c == '9' { Some(9) } else if c == 'A' { Some(10) } else if c == 'B' { Some(11) }
        else if c == 'C' { Some(12) } else if c == 'D' { Some(13) } else if c == 'E' { Some(14) }
        else if c == 'F' { Some(15) } else if c == 'G' { Some(16) } else if c == 'H' { Some(17) }
        else if c == 'J' { Some(18) } else if c == 'K' { Some(19) } else if c == 'M' { Some(20) }
        else if c == 'N' { Some(21) } else if c == 'P' { Some(22) } else if c == 'Q' { Some(23) }
        else if c == 'R' { Some(24) } else if c == 'S' { Some(25) } else if c == 'T' { Some(26) }
        else if c == 'V' { Some(27) } else if c == 'W' { Some(28) } else if c == 'X' { Some(29) }
        else if c == 'Y' { Some(30) } else if c == 'Z' { Some(31) } else { None }
    }

    /// The canonical 26-character sortable text form.
    pub fn to_string(&self) -> (r: String)
        ensures
            r@ == spec_id_text(self@),
            r@.len() == ID_TEXT_LENGTH,
    {
        let ds = Self::digits_of_value(self.value, 32, ID_TEXT_LENGTH);
        let mut r = String::new();
        let mut j: usize = 0;
        while j < ID_TEXT_LENGTH
            invariant
                j <= ID_TEXT_LENGTH,
                ds@.len() == ID_TEXT_LENGTH,
                forall|i: int|
                    0 <= i < ID_TEXT_LENGTH ==> #[trigger] ds@[i] as int == digits_be(self@ as int, 32, ID_TEXT_LENGTH as nat)[ID_TEXT_LENGTH - 1 - i],
                r@.len() == j,
                forall|i: int| 0 <= i < j ==> #[trigger] r@[i] == spec_id_text(self@)[i],
            decreases ID_TEXT_LENGTH - j,
        {
            let d = ds[ID_TEXT_LENGTH - 1 - j];
            proof {
                lemma_id_pow_bounds();
                lemma_fold_digits_be(self@ as int, 32, ID_TEXT_LENGTH as nat);
            }
            let c = Self::b32_char_exec(d);
            push_char(&mut r, c);
            j += 1;
        }
        proof {
            assert(r@ =~= spec_id_text(self@));
        }
        r
    }

    /// Reads the canonical text form back. Fails with
    /// `MalformedIdentifier` on anything but a well-formed text.
    pub fn parse(data: &str) -> (r: Result<Self, IdError>)
        ensures
            r is Ok <==> id_text_wf(data@),
            r is Ok ==> r->Ok_0@ as int == id_text_value(data@),
            r is Err ==> r->Err_0 == IdError::MalformedIdentifier,
    {
        let len = data.unicode_len();
        if len != ID_TEXT_LENGTH {
            return Err(IdError::MalformedIdentifier);
        }
        let mut v: u128 = 0;
        let mut k: usize = 0;
        while k < ID_TEXT_LENGTH
            invariant
                k <= ID_TEXT_LENGTH,
                data@.len() == ID_TEXT_LENGTH,
                forall|i: int| 0 <= i < k ==> b32_val(#[trigger] data@[i]) >= 0,
                k > 0 ==> b32_val(data@[0]) < 8,
                v as int == fold_digits(char_digits(data@).subrange(0, k as int), 32),
            decreases ID_TEXT_LENGTH - k,
        {
            let c = data.get_char(k);
            let d = match Self::b32_val_exec(c) {
                Some(d) => d,
                None => {
                    return Err(IdError::MalformedIdentifier);
                },
            };
            if k == 0 && d >= 8 {
                return Err(IdError::MalformedIdentifier);
            }
            proof {
                let prefix = char_digits(data@).subrange(0, k as int);
                assert(all_digits(prefix, 32));
                if k > 0 {
                    assert(prefix[0] == b32_val(data@[0]));
                    lemma_fold_first_digit_bound(prefix, 32);
                    lemma_pow_positive(32, (k - 1) as nat);
                    lemma_pow_increases(32, k as nat, 25);
                    lemma_id_pow_bounds();
                    assert(pow(32, k as nat) == 32 * pow(32, (k - 1) as nat)) by {
                        lemma_pow_adds(32, 1nat, (k - 1) as nat);
                    }
                    assert(v as int <= (prefix[0] + 1) * pow(32, (k - 1) as nat) - 1);
                    assert(v as int <= 8 * pow(32, (k - 1) as nat) - 1) by (nonlinear_arith)
                        requires
                            (v as int) <= (prefix[0] + 1) * pow(32, (k - 1) as nat) - 1,
                            prefix[0] + 1 <= 8,
                            pow(32, (k - 1) as nat) >= 1,
                    ;
                    assert((v as int) * 32 + d < 8 * pow(32, k as nat)) by (nonlinear_arith)
                        requires
                            (v as int) <= 8 * pow(32, (k - 1) as nat) - 1,
                            d < 32,
                            pow(32, k as nat) == 32 * pow(32, (k - 1) as nat),
                    ;
                    assert(8 * pow(32, k as nat) <= 8 * pow(32, 25));
                }
                let next = char_digits(data@).subrange(0, k as int + 1);
                assert(next.drop_last() =~= prefix);
                assert(next.last() == b32_val(data@[k as int]));
            }
            v = v * 32 + (d as u128);
            k += 1;
        }
        proof {
            assert(char_digits(data@).subrange(0, ID_TEXT_LENGTH as int) =~= char_digits(data@));
        }
        Ok(UserId { value: v })
    }

    /// The 16-byte big-endian binary form.
    pub fn to_bytes(&self) -> (r: Vec<u8>)
        ensures
            r@ == spec_id_bytes(self@),
            r@.len() == ID_BYTE_LENGTH,
    {
        let ds = Self::digits_of_value(self.value, 256, ID_BYTE_LENGTH);
        let mut r: Vec<u8> = Vec::new();
        let mut j: usize = 0;
        while j < ID_BYTE_LENGTH
            invariant
                j <= ID_BYTE_LENGTH,
                ds@.len() == ID_BYTE_LENGTH,
                forall|i: int|
                    0 <= i < ID_BYTE_LENGTH ==> #[trigger] ds@[i] as int == digits_be(self@ as int, 256, ID_BYTE_LENGTH as nat)[ID_BYTE_LENGTH - 1 - i],
                r@.len() == j,
                forall|i: int| 0 <= i < j ==> #[trigger] r@[i] == spec_id_bytes(self@)[i],
            decreases ID_BYTE_LENGTH - j,
        {
            let d = ds[ID_BYTE_LENGTH - 1 - j];
            proof {
                lemma_id_pow_bounds();
                lemma_fold_digits_be(self@ as int, 256, ID_BYTE_LENGTH as nat);
            }
            r.push(d);
            j += 1;
        }
        proof {
            assert(r@ =~= spec_id_bytes(self@));
        }
        r
    }

    /// Reads the 16-byte binary form back. Fails with `InvalidLength`
    /// unless exactly 16 bytes are given.
    pub fn from_bytes(bytes: &Vec<u8>) -> (r: Result<Self, IdError>)
        ensures
            r is Ok <==> bytes@.len() == ID_BYTE_LENGTH,
            r is Ok ==> r->Ok_0@ as int == id_bytes_value(bytes@),
            r is Err ==> r->Err_0 == IdError::InvalidLength,
    {
        if bytes.len() != ID_BYTE_LENGTH {
            return Err(IdError::InvalidLength);
        }
        let mut v: u128 = 0;
        let mut k: usize = 0;
        while k < ID_BYTE_LENGTH
            invariant
                k <= ID_BYTE_LENGTH,
                bytes@.len() == ID_BYTE_LENGTH,
                v as int == fold_digits(byte_digits(bytes@).subrange(0, k as int), 256),
            decreases ID_BYTE_LENGTH - k,
        {
            let b = bytes[k];
            proof {
                let prefix = byte_digits(bytes@).subrange(0, k as int);
                assert(all_digits(prefix, 256));
                lemma_fold_bound(prefix, 256);
                lemma_pow_increases(256, k as nat + 1, 16);
                lemma_id_pow_bounds();
                assert(pow(256, k as nat + 1) == 256 * pow(256, k as nat)) by {
                    lemma_pow_adds(256, 1nat, k as nat);
                }
                assert((v as int) * 256 + b < pow(256, k as nat + 1)) by (nonlinear_arith)
                    requires
                        (v as int) <= pow(256, k as nat) - 1,
                        b < 256,
                        pow(256, k as nat + 1) == 256 * pow(256, k as nat),
                ;
                let next = byte_digits(bytes@).subrange(0, k as int + 1);
                assert(next.drop_last() =~= prefix);
                assert(next.last() == bytes@[k as int] as int);
            }
            v = v * 256 + (b as u128);
            k += 1;
        }
        proof {
            assert(byte_digits(bytes@).subrange(0, ID_BYTE_LENGTH as int) =~= byte_digits(bytes@));
        }
        Ok(UserId { value: v })
    }
}

/// Round trip: the canonical text of any identifier is well formed and
/// denotes the identifier's own value.
pub proof fn lemma_id_text_round_trip(v: u128)
    ensures
        id_text_wf(spec_id_text(v)),
        id_text_value(spec_id_text(v)) == v as int,
{
    lemma_id_pow_bounds();
    lemma_fold_digits_be(v as int, 32, 26);
    let ds = digits_be(v as int, 32, 26);
    assert forall|i: int| 0 <= i < 26 implies b32_val(#[trigger] spec_id_text(v)[i]) == ds[i] by {
        lemma_b32_char_val(ds[i], spec_id_text(v)[i]);
    }
    assert(ds[0] == ((v as int) / pow(32, 25)) % 32);
    assert((v as int) / pow(32, 25) < 8) by (nonlinear_arith)
        requires
            (v as int) < 8 * pow(32, 25),
            pow(32, 25) > 0,
    ;
    lemma_small_mod(((v as int) / pow(32, 25)) as nat, 32nat);
    assert(char_digits(spec_id_text(v)) =~= ds);
}

/// Round trip: the binary form of any identifier denotes the identifier's
/// own value.
pub proof fn lemma_id_bytes_round_trip(v: u128)
    ensures
        id_bytes_value(spec_id_bytes(v)) == v as int,
{
    lemma_id_pow_bounds();
    lemma_fold_digits_be(v as int, 256, 16);
    assert(byte_digits(spec_id_bytes(v)) =~= digits_be(v as int, 256, 16));
}

/// Canonicity: a well-formed identifier text is the canonical text of the
/// value it denotes, and any 16 bytes are the binary form of the value they
/// denote.
pub proof fn lemma_id_canonical(s: Seq<char>, bs: Seq<u8>)
    ensures
        id_text_wf(s) ==> 0 <= id_text_value(s) < 0x100000000000000000000000000000000
            && spec_id_text(id_text_value(s) as u128) =~= s,
        bs.len() == 16 ==> 0 <= id_bytes_value(bs) < 0x100000000000000000000000000000000
            && spec_id_bytes(id_bytes_value(bs) as u128) =~= bs,
{
    lemma_id_pow_bounds();
    if id_text_wf(s) {
        let ds = char_digits(s);
        assert(all_digits(ds, 32)) by {
            assert forall|i: int| 0 <= i < 26 implies 0 <= #[trigger] ds[i] < 32 by {
                lemma_b32_char_val(0, s[i]);
            }
        }
        lemma_fold_first_digit_bound(ds, 32);
        lemma_fold_bound(ds, 32);
        assert(ds[0] <= 7);
        assert((ds[0] + 1) * pow(32, 25) <= 8 * pow(32, 25)) by (nonlinear_arith)
            requires
                ds[0] + 1 <= 8,
                pow(32, 25) > 0,
        ;
        lemma_digits_of_fold(ds, 32);
        let v = id_text_value(s) as u128;
        assert forall|i: int| 0 <= i < 26 implies #[trigger] spec_id_text(v)[i] == s[i] by {
            assert(digits_be(v as int, 32, 26)[i] == ds[i]);
            lemma_b32_char_val(ds[i], s[i]);
        }
    }
    if bs.len() == 16 {
        let ds = byte_digits(bs);
        assert(all_digits(ds, 256));
        lemma_fold_bound(ds, 256);
        lemma_digits_of_fold(ds, 256);
        let v = id_bytes_value(bs) as u128;
        assert forall|i: int| 0 <= i < 16 implies #[trigger] spec_id_bytes(v)[i] == bs[i] by {
            assert(digits_be(v as int, 256, 16)[i] == ds[i]);
        }
    }
}

} // verus!
