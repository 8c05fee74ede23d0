//! A small JSON value model: the payload of a token is one of these values.

use crate::parser::id::{all_digits, fold_digits, lemma_fold_bound, lemma_fold_first_digit_lower};
use vstd::arithmetic::power::{lemma_pow_adds, lemma_pow_increases, pow};
use crate::strutil::push_char;
use vstd::prelude::*;

verus! {

/// Specification-level mirror of `JsonValue`.
pub enum SpecJson {
    Null,
    Bool(bool),
    Int(int),
    Str(Seq<char>),
    Arr(Seq<SpecJson>),
    Obj(Seq<(Seq<char>, SpecJson)>),
}

/// A structured value that may appear as a claim: a string, an integer,
/// a boolean, null, an array, or an object keyed by strings.
#[derive(Debug, PartialEq)]
pub enum JsonValue {
    Null,
    Bool(bool),
    Int(i64),
    Str(String),
    Arr(Vec<JsonValue>),
    Obj(Vec<(String, JsonValue)>),
}

impl DeepView for JsonValue {
    type V = SpecJson;

    open spec fn deep_view(&self) -> SpecJson
        decreases self,
    {
        match self {
            JsonValue::Null => SpecJson::Null,
            JsonValue::Bool(b) => SpecJson::Bool(*b),
            JsonValue::Int(i) => SpecJson::Int(*i as int),
            JsonValue::Str(s) => SpecJson::Str(s@),
            JsonValue::Arr(items) => SpecJson::Arr(deep_view_seq(items@)),
            JsonValue::Obj(fields) => SpecJson::Obj(deep_view_fields(fields@)),
        }
    }
}

/// The deep views of a sequence of values, element by element.
pub open spec fn deep_view_seq(items: Seq<JsonValue>) -> Seq<SpecJson>
    decreases items,
{
    if items.len() == 0 {
        Seq::empty()
    } else {
        deep_view_seq(items.drop_last()).push(items.last().deep_view())
    }
}

/// The deep views of a sequence of key/value pairs, element by element.
pub open spec fn deep_view_fields(fields: Seq<(String, JsonValue)>) -> Seq<(Seq<char>, SpecJson)>
    decreases fields,
{
    if fields.len() == 0 {
        Seq::empty()
    } else {
        deep_view_fields(fields.drop_last()).push(
            (fields.last().0@, fields.last().1.deep_view()),
        )
    }
}

/// Each element of `deep_view_seq` is the deep view of the matching element.
pub proof fn lemma_deep_view_seq_index(items: Seq<JsonValue>, i: int)
    requires
        0 <= i < items.len(),
    ensures
        deep_view_seq(items).len() == items.len(),
        deep_view_seq(items)[i] == items[i].deep_view(),
    decreases items,
{
    reveal_with_fuel(deep_view_seq, 2);
    lemma_deep_view_seq_len(items);
    if items.len() != 0 {
        lemma_deep_view_seq_len(items.drop_last());
        if i < items.len() - 1 {
            lemma_deep_view_seq_index(items.drop_last(), i);
            assert(items.drop_last()[i] == items[i]);
        } else {
            assert(items.last() == items[i]);
        }
    }
}

/// `deep_view_seq` keeps the length of the sequence.
pub proof fn lemma_deep_view_seq_len(items: Seq<JsonValue>)
    ensures
        deep_view_seq(items).len() == items.len(),
    decreases items,
{
    reveal_with_fuel(deep_view_seq, 2);
    if items.len() != 0 {
        lemma_deep_view_seq_len(items.drop_last());
    }
}

/// Nesting height of a spec-level JSON value.
pub open spec fn height_of(v: SpecJson) -> nat
    decreases v,
{
    match v {
        SpecJson::Arr(elems) => 1 + height_of_seq(elems),
        SpecJson::Obj(fields) => 1 + height_of_fields(fields),
        _ => 0,
    }
}

/// Largest height among the elements of a sequence.
pub open spec fn height_of_seq(elems: Seq<SpecJson>) -> nat
    decreases elems,
{
    if elems.len() == 0 {
        0
    } else {
        let h = height_of(elems[0]);
        let rest = height_of_seq(elems.skip(1));
        if h > rest {
            h
        } else {
            rest
        }
    }
}

/// Largest height among the values of a field sequence.
pub open spec fn height_of_fields(fields: Seq<(Seq<char>, SpecJson)>) -> nat
    decreases fields,
{
    if fields.len() == 0 {
        0
    } else {
        let h = height_of(fields[0].1);
        let rest = height_of_fields(fields.skip(1));
        if h > rest {
            h
        } else {
            rest
        }
    }
}

/// A value the wire format can carry exactly: every integer fits in a
/// 64-bit signed machine word.
pub open spec fn wf_json(v: SpecJson) -> bool
    decreases v,
{
    match v {
        SpecJson::Int(i) => -0x8000000000000000 <= i <= 0x7fffffffffffffff,
        SpecJson::Arr(elems) => wf_json_seq(elems),
        SpecJson::Obj(fields) => wf_json_fields(fields),
        _ => true,
    }
}

/// Well-formedness of every element of a sequence.
pub open spec fn wf_json_seq(elems: Seq<SpecJson>) -> bool
    decreases elems,
{
    if elems.len() == 0 {
        true
    } else {
        wf_json(elems[0]) && wf_json_seq(elems.skip(1))
    }
}

/// Well-formedness of every value of a field sequence.
pub open spec fn wf_json_fields(fields: Seq<(Seq<char>, SpecJson)>) -> bool
    decreases fields,
{
    if fields.len() == 0 {
        true
    } else {
        wf_json(fields[0].1) && wf_json_fields(fields.skip(1))
    }
}

/// The lowercase hexadecimal character for a digit below 16.
pub open spec fn hex_char(d: int) -> char {
    if d < 10 {
        ((48 + d) as u8) as char
    } else {
        ((87 + d) as u8) as char
    }
}

/// The value of a hexadecimal character, or -1.
pub open spec fn hex_val(c: char) -> int {
    let u = c as u32;
    if 48 <= u && u <= 57 {
        u - 48
    } else if 97 <= u && u <= 102 {
        u - 87
    } else if 65 <= u && u <= 70 {
        u - 55
    } else {
        -1
    }
}

/// The four-character hexadecimal form of a value below 0x10000.
pub open spec fn hex4(u: int) -> Seq<char> {
    seq![hex_char(u / 0x1000 % 16), hex_char(u / 0x100 % 16), hex_char(u / 0x10 % 16), hex_char(u % 16)]
}

/// How one character is written inside a string literal: a short escape for
/// the quote, the backslash and the common control characters, the raw
/// character for printable ASCII, and a `\u` escape (a surrogate pair
/// beyond U+FFFF) for everything else.
pub open spec fn esc_char(c: char) -> Seq<char> {
    let u = c as u32;
    if c == '"' {
        seq!['\\', '"']
    } else if c == '\\' {
        seq!['\\', '\\']
    } else if u == 0x0a {
        seq!['\\', 'n']
    } else if u == 0x0d {
        seq!['\\', 'r']
    } else if u == 0x09 {
        seq!['\\', 't']
    } else if 0x20 <= u && u < 0x80 {
        seq![c]
    } else if u < 0x10000 {
        seq!['\\', 'u'] + hex4(u as int)
    } else {
        seq!['\\', 'u'] + hex4(0xd800 + (u - 0x10000) / 0x400) + seq!['\\', 'u'] + hex4(
            0xdc00 + (u - 0x10000) % 0x400,
        )
    }
}

/// The body of a string literal: each character escaped in turn.
pub open spec fn ser_str_body(cs: Seq<char>) -> Seq<char>
    decreases cs.len(),
{
    if cs.len() == 0 {
        Seq::empty()
    } else {
        esc_char(cs[0]) + ser_str_body(cs.skip(1))
    }
}

/// A whole string literal, quotes included.
pub open spec fn ser_string(cs: Seq<char>) -> Seq<char> {
    seq!['"'] + ser_str_body(cs) + seq!['"']
}

/// The decimal digits of a non-negative number, most significant first.
pub open spec fn dec_digits(m: int) -> Seq<int>
    decreases m,
{
    if m < 10 {
        seq![if m >= 0 { m } else { 0 }]
    } else {
        dec_digits(m / 10).push(m % 10)
    }
}

/// The decimal character for a digit.
pub open spec fn dec_char(d: int) -> char {
    ((48 + d) as u8) as char
}

/// A digit sequence written as characters.
pub open spec fn dec_chars(ds: Seq<int>) -> Seq<char> {
    Seq::new(ds.len(), |i: int| dec_char(ds[i]))
}

/// A signed integer in its canonical decimal form.
pub open spec fn ser_int(v: int) -> Seq<char> {
    if v < 0 {
        seq!['-'] + dec_chars(dec_digits(-v))
    } else {
        dec_chars(dec_digits(v))
    }
}

/// The canonical serialized form of a value: no whitespace, fields in
/// order.
pub open spec fn ser_value(v: SpecJson) -> Seq<char>
    decreases v,
{
    match v {
        SpecJson::Null => seq!['n', 'u', 'l', 'l'],
        SpecJson::Bool(b) => if b {
            seq!['t', 'r', 'u', 'e']
        } else {
            seq!['f', 'a', 'l', 's', 'e']
        },
        SpecJson::Int(i) => ser_int(i),
        SpecJson::Str(cs) => ser_string(cs),
        SpecJson::Arr(elems) => seq!['['] + ser_items(elems) + seq![']'],
        SpecJson::Obj(fields) => seq!['{'] + ser_fields(fields) + seq!['}'],
    }
}

/// The comma-separated elements of an array.
pub open spec fn ser_items(elems: Seq<SpecJson>) -> Seq<char>
    decreases elems,
{
    if elems.len() == 0 {
        Seq::empty()
    } else if elems.len() == 1 {
        ser_value(elems[0])
    } else {
        ser_value(elems[0]) + seq![','] + ser_items(elems.skip(1))
    }
}

/// The comma-separated `"key":value` pairs of an object.
pub open spec fn ser_fields(fields: Seq<(Seq<char>, SpecJson)>) -> Seq<char>
    decreases fields,
{
    if fields.len() == 0 {
        Seq::empty()
    } else if fields.len() == 1 {
        ser_string(fields[0].0) + seq![':'] + ser_value(fields[0].1)
    } else {
        ser_string(fields[0].0) + seq![':'] + ser_value(fields[0].1) + seq![','] + ser_fields(
            fields.skip(1),
        )
    }
}

/// An ASCII decimal digit.
pub open spec fn is_dec_digit(c: char) -> bool {
    48 <= (c as u32) && (c as u32) <= 57
}

/// Number of consecutive decimal digits at position `i`.
pub open spec fn scan_dec_digits(s: Seq<char>, i: nat) -> nat
    decreases s.len() - i,
{
    if i < s.len() && is_dec_digit(s[i as int]) {
        1 + scan_dec_digits(s, i + 1)
    } else {
        0
    }
}

/// The value of the digit run of length `n` at position `i`.
pub open spec fn digit_run_value(s: Seq<char>, i: nat, n: nat) -> int {
    fold_digits(Seq::new(n, |k: int| (s[i + k] as u32) - 48), 10)
}

/// A parsed number: its value and the characters consumed. Rejects empty
/// runs, leading zeroes and values outside the signed 64-bit range.
pub open spec fn parse_int(s: Seq<char>, i: nat) -> Option<(int, nat)> {
    let neg = i < s.len() && s[i as int] == '-';
    let j: nat = if neg {
        i + 1
    } else {
        i
    };
    let n = scan_dec_digits(s, j);
    if n == 0 {
        None
    } else if s[j as int] == '0' && n > 1 {
        None
    } else {
        let m = digit_run_value(s, j, n);
        if neg {
            if m > 0x8000000000000000 {
                None
            } else {
                Some((-m, (n + 1) as nat))
            }
        } else {
            if m > 0x7fffffffffffffff {
                None
            } else {
                Some((m, n))
            }
        }
    }
}

/// The body of a string literal from position `i` (just after the opening
/// quote): the characters it denotes and the characters consumed, closing
/// quote included.
pub open spec fn parse_string_body(s: Seq<char>, i: nat) -> Option<(Seq<char>, nat)>
    decreases s.len() - i,
{
    if i >= s.len() {
        None
    } else if s[i as int] == '"' {
        Some((Seq::empty(), 1nat))
    } else if s[i as int] == '\\' {
        if i + 1 >= s.len() {
            None
        } else {
            let e = s[i as int + 1];
            if e == '"' || e == '\\' || e == '/' {
                parse_string_tail(s, i, e, 2)
            } else if e == 'n' {
                parse_string_tail(s, i, '\n', 2)
            } else if e == 'r' {
                parse_string_tail(s, i, '\r', 2)
            } else if e == 't' {
                parse_string_tail(s, i, '\t', 2)
            } else if e == 'b' {
                parse_string_tail(s, i, (8u8 as char), 2)
            } else if e == 'f' {
                parse_string_tail(s, i, (12u8 as char), 2)
            } else if e == 'u' {
                if i + 6 <= s.len() && hex_val(s[i as int + 2]) >= 0 && hex_val(s[i as int + 3])
                    >= 0 && hex_val(s[i as int + 4]) >= 0 && hex_val(s[i as int + 5]) >= 0 {
                    let u = hex_val(s[i as int + 2]) * 0x1000 + hex_val(s[i as int + 3]) * 0x100
                        + hex_val(s[i as int + 4]) * 0x10 + hex_val(s[i as int + 5]);
                    if 0xd800 <= u && u < 0xdc00 {
                        if i + 12 <= s.len() && s[i as int + 6] == '\\' && s[i as int + 7] == 'u'
                            && hex_val(s[i as int + 8]) >= 0 && hex_val(s[i as int + 9]) >= 0
                            && hex_val(s[i as int + 10]) >= 0 && hex_val(s[i as int + 11]) >= 0 {
                            let l = hex_val(s[i as int + 8]) * 0x1000 + hex_val(s[i as int + 9])
                                * 0x100 + hex_val(s[i as int + 10]) * 0x10 + hex_val(
                                s[i as int + 11],
                            );
                            if 0xdc00 <= l && l < 0xe000 {
                                parse_string_tail(
                                    s,
                                    i,
                                    (((0x10000 + (u - 0xd800) * 0x400 + (l - 0xdc00)) as u32) as char),
                                    12,
                                )
                            } else {
                                None
                            }
                        } else {
                            None
                        }
                    } else if 0xdc00 <= u && u < 0xe000 {
                        None
                    } else {
                        parse_string_tail(s, i, ((u as u32) as char), 6)
                    }
                } else {
                    None
                }
            } else {
                None
            }
        }
    } else if (s[i as int] as u32) < 0x20 {
        None
    } else {
        parse_string_tail(s, i, s[i as int], 1)
    }
}

/// One decoded character `c` of width `k`, followed by the rest of the
/// string body.
pub open spec fn parse_string_tail(s: Seq<char>, i: nat, c: char, k: nat) -> Option<(
    Seq<char>,
    nat,
)>
    decreases s.len() - i, 0nat,
{
    if k < 1 || i + k > s.len() {
        None
    } else {
        match parse_string_body(s, i + k) {
            Some((cs, m)) => Some((seq![c] + cs, k + m)),
            None => None,
        }
    }
}

/// A parsed value at position `i`: the value and the characters consumed.
pub open spec fn parse_value(s: Seq<char>, i: nat) -> Option<(SpecJson, nat)>
    decreases s.len() - i, 2nat,
{
    if i >= s.len() {
        None
    } else if s[i as int] == 'n' {
        if i + 4 <= s.len() && s[i as int + 1] == 'u' && s[i as int + 2] == 'l' && s[i as int + 3]
            == 'l' {
            Some((SpecJson::Null, 4nat))
        } else {
            None
        }
    } else if s[i as int] == 't' {
        if i + 4 <= s.len() && s[i as int + 1] == 'r' && s[i as int + 2] == 'u' && s[i as int + 3]
            == 'e' {
            Some((SpecJson::Bool(true), 4nat))
        } else {
            None
        }
    } else if s[i as int] == 'f' {
        if i + 5 <= s.len() && s[i as int + 1] == 'a' && s[i as int + 2] == 'l' && s[i as int + 3]
            == 's' && s[i as int + 4] == 'e' {
            Some((SpecJson::Bool(false), 5nat))
        } else {
            None
        }
    } else if s[i as int] == '"' {
        match parse_string_body(s, i + 1) {
            Some((cs, m)) => Some((SpecJson::Str(cs), (1 + m) as nat)),
            None => None,
        }
    } else if s[i as int] == '[' {
        if i + 1 < s.len() && s[i as int + 1] == ']' {
            Some((SpecJson::Arr(Seq::empty()), 2nat))
        } else {
            match parse_items(s, i + 1) {
                Some((vs, m)) => Some((SpecJson::Arr(vs), (1 + m) as nat)),
                None => None,
            }
        }
    } else if s[i as int] == '{' {
        if i + 1 < s.len() && s[i as int + 1] == '}' {
            Some((SpecJson::Obj(Seq::empty()), 2nat))
        } else {
            match parse_fields(s, i + 1) {
                Some((fs, m)) => Some((SpecJson::Obj(fs), (1 + m) as nat)),
                None => None,
            }
        }
    } else if s[i as int] == '-' || is_dec_digit(s[i as int]) {
        match parse_int(s, i) {
            Some((v, n)) => Some((SpecJson::Int(v), n)),
            None => None,
        }
    } else {
        None
    }
}

/// One or more comma-separated elements at position `i`, up to and
/// including the closing bracket.
pub open spec fn parse_items(s: Seq<char>, i: nat) -> Option<(Seq<SpecJson>, nat)>
    decreases s.len() - i, 3nat,
{
    match parse_value(s, i) {
        None => None,
        Some((v, c)) => {
            if i + c < s.len() && s[(i + c) as int] == ',' {
                match parse_items(s, (i + c + 1) as nat) {
                    Some((vs, m)) => Some((seq![v] + vs, (c + 1 + m) as nat)),
                    None => None,
                }
            } else if i + c < s.len() && s[(i + c) as int] == ']' {
                Some((seq![v], (c + 1) as nat))
            } else {
                None
            }
        },
    }
}

/// One or more comma-separated `"key":value` pairs at position `i`, up to
/// and including the closing brace.
pub open spec fn parse_fields(s: Seq<char>, i: nat) -> Option<(Seq<(Seq<char>, SpecJson)>, nat)>
    decreases s.len() - i, 3nat,
{
    if i < s.len() && s[i as int] == '"' {
        match parse_string_body(s, i + 1) {
            None => None,
            Some((key, ck)) => {
                if i + 1 + ck < s.len() && s[(i + 1 + ck) as int] == ':' {
                    match parse_value(s, (i + ck + 2) as nat) {
                        None => None,
                        Some((v, cv)) => {
                            let e: nat = (i + ck + 2 + cv) as nat;
                            if e < s.len() && s[e as int] == ',' {
                                match parse_fields(s, (e + 1) as nat) {
                                    Some((fs, m)) => Some(
                                        (seq![(key, v)] + fs, (ck + 2 + cv + 1 + m) as nat),
                                    ),
                                    None => None,
                                }
                            } else if e < s.len() && s[e as int] == '}' {
                                Some((seq![(key, v)], (ck + 2 + cv + 1) as nat))
                            } else {
                                None
                            }
                        },
                    }
                } else {
                    None
                }
            },
        }
    } else {
        None
    }
}

/// A whole document: one value covering the entire sequence.
pub open spec fn parse_json(s: Seq<char>) -> Option<SpecJson> {
    match parse_value(s, 0) {
        Some((v, n)) => if n == s.len() {
            Some(v)
        } else {
            None
        },
        None => None,
    }
}

/// Every parse consumes at least one and at most the remaining characters.
#[verifier::rlimit(100)]
pub proof fn lemma_parse_bounds(s: Seq<char>, i: nat)
    requires
        i <= s.len(),
    ensures
        parse_string_body(s, i) matches Some((cs, m)) ==> 1 <= m && i + m <= s.len(),
        parse_value(s, i) matches Some((v, c)) ==> 1 <= c && i + c <= s.len(),
        parse_items(s, i) matches Some((vs, m)) ==> 1 <= m && i + m <= s.len(),
        parse_fields(s, i) matches Some((fs, m)) ==> 1 <= m && i + m <= s.len(),
    decreases s.len() - i, 4nat,
{
    lemma_scan_dec_bounds(s, i);
    if i < s.len() {
        lemma_scan_dec_bounds(s, i + 1);
        lemma_parse_bounds(s, i + 1);
        if i + 2 <= s.len() {
            lemma_parse_bounds(s, i + 2);
        }
        if i + 6 <= s.len() {
            lemma_parse_bounds(s, i + 6);
        }
        if i + 12 <= s.len() {
            lemma_parse_bounds(s, i + 12);
        }
        assert(parse_string_body(s, i) matches Some((cs, m)) ==> 1 <= m && i + m <= s.len());
        assert(parse_value(s, i) matches Some((v, c)) ==> 1 <= c && i + c <= s.len());
        match parse_value(s, i) {
            Some((v, c)) => {
                if i + c < s.len() && s[(i + c) as int] == ',' {
                    lemma_parse_bounds(s, (i + c + 1) as nat);
                }
                assert(parse_items(s, i) matches Some((vs, m)) ==> 1 <= m && i + m <= s.len());
            },
            None => {},
        }
        if s[i as int] == '"' {
            match parse_string_body(s, i + 1) {
                Some((key, ck)) => {
                    if i + 1 + ck < s.len() && s[(i + 1 + ck) as int] == ':' {
                        lemma_parse_bounds(s, (i + ck + 2) as nat);
                        match parse_value(s, (i + ck + 2) as nat) {
                            Some((v, cv)) => {
                                let e: nat = (i + ck + 2 + cv) as nat;
                                if e < s.len() && s[e as int] == ',' {
                                    lemma_parse_bounds(s, (e + 1) as nat);
                                }
                                assert(parse_fields(s, i) matches Some((fs, m)) ==> 1 <= m && i + m
                                    <= s.len());
                            },
                            None => {},
                        }
                    }
                },
                None => {},
            }
        }
    }
}

/// A digit run never reaches past the end of the sequence.
pub proof fn lemma_scan_dec_bounds(s: Seq<char>, i: nat)
    requires
        i <= s.len(),
    ensures
        i + scan_dec_digits(s, i) <= s.len(),
    decreases s.len() - i,
{
    if i < s.len() && is_dec_digit(s[i as int]) {
        lemma_scan_dec_bounds(s, i + 1);
    }
}

/// Appending element views one at a time agrees with `deep_view_seq`.
pub proof fn lemma_deep_view_seq_push(items: Seq<JsonValue>, x: JsonValue)
    ensures
        deep_view_seq(items.push(x)) =~= deep_view_seq(items).push(x.deep_view()),
{
    lemma_deep_view_seq_len(items);
    lemma_deep_view_seq_len(items.push(x));
    assert forall|i: int| 0 <= i < items.len() + 1 implies deep_view_seq(items.push(x))[i] == deep_view_seq(items).push(x.deep_view())[i] by {
        lemma_deep_view_seq_index(items.push(x), i);
        if i < items.len() {
            lemma_deep_view_seq_index(items, i);
        }
    }
}

/// The spec serializer, written step by step as the executable writer
/// emits characters: one value appended to the output seen so far.
pub(crate) fn write_value(out: &mut String, v: &JsonValue)
    ensures
        final(out)@ == old(out)@ + ser_value(v.deep_view()),
    decreases v, 1nat,
{
    match v {
        JsonValue::Null => {
            push_char(out, 'n');
            push_char(out, 'u');
            push_char(out, 'l');
            push_char(out, 'l');
            proof {
                assert(final(out)@ =~= old(out)@ + ser_value(v.deep_view()));
            }
        },
        JsonValue::Bool(b) => {
            if *b {
                push_char(out, 't');
                push_char(out, 'r');
                push_char(out, 'u');
                push_char(out, 'e');
            } else {
                push_char(out, 'f');
                push_char(out, 'a');
                push_char(out, 'l');
                push_char(out, 's');
                push_char(out, 'e');
            }
            proof {
                assert(final(out)@ =~= old(out)@ + ser_value(v.deep_view()));
            }
        },
        JsonValue::Int(i) => {
            write_int(out, *i);
        },
        JsonValue::Str(cs) => {
            write_string(out, cs);
        },
        JsonValue::Arr(items) => {
            push_char(out, '[');
            if items.len() == 0 {
                push_char(out, ']');
                proof {
                    assert(deep_view_seq(items@).len() == 0) by {
                        lemma_deep_view_seq_len(items@);
                    }
                    assert(final(out)@ =~= old(out)@ + ser_value(v.deep_view()));
                }
            } else {
                write_items(out, items, 0);
                push_char(out, ']');
                proof {
                    lemma_deep_view_seq_len(items@);
                    assert(deep_view_seq(items@).skip(0) =~= deep_view_seq(items@));
                    assert(final(out)@ =~= old(out)@ + ser_value(v.deep_view()));
                }
            }
        },
        JsonValue::Obj(fields) => {
            push_char(out, '{');
            if fields.len() == 0 {
                push_char(out, '}');
                proof {
                    assert(deep_view_fields(fields@).len() == 0) by {
                        lemma_deep_view_fields_len(fields@);
                    }
                    assert(final(out)@ =~= old(out)@ + ser_value(v.deep_view()));
                }
            } else {
                write_fields(out, fields, 0);
                push_char(out, '}');
                proof {
                    lemma_deep_view_fields_len(fields@);
                    assert(deep_view_fields(fields@).skip(0) =~= deep_view_fields(fields@));
                    assert(final(out)@ =~= old(out)@ + ser_value(v.deep_view()));
                }
            }
        },
    }
}

/// `deep_view_fields` keeps the length of the sequence.
pub proof fn lemma_deep_view_fields_len(fields: Seq<(String, JsonValue)>)
    ensures
        deep_view_fields(fields).len() == fields.len(),
    decreases fields,
{
    reveal_with_fuel(deep_view_fields, 2);
    if fields.len() != 0 {
        lemma_deep_view_fields_len(fields.drop_last());
    }
}

/// Each element of `deep_view_fields` is the view of the matching pair.
pub proof fn lemma_deep_view_fields_index(fields: Seq<(String, JsonValue)>, i: int)
    requires
        0 <= i < fields.len(),
    ensures
        deep_view_fields(fields).len() == fields.len(),
        deep_view_fields(fields)[i] == (fields[i].0@, fields[i].1.deep_view()),
    decreases fields,
{
    reveal_with_fuel(deep_view_fields, 2);
    lemma_deep_view_fields_len(fields);
    if fields.len() != 0 {
        lemma_deep_view_fields_len(fields.drop_last());
        if i < fields.len() - 1 {
            lemma_deep_view_fields_index(fields.drop_last(), i);
            assert(fields.drop_last()[i] == fields[i]);
        } else {
            assert(fields.last() == fields[i]);
        }
    }
}

/// Writes the elements of `items` from position `k` on, separated by
/// commas.
fn write_items(out: &mut String, items: &Vec<JsonValue>, k: usize)
    requires
        k < items@.len(),
    ensures
        final(out)@ == old(out)@ + ser_items(deep_view_seq(items@).skip(k as int)),
    decreases items, 0nat, items@.len() - k,
{
    proof {
        lemma_deep_view_seq_len(items@);
        lemma_deep_view_seq_index(items@, k as int);
    }
    write_value(out, &items[k]);
    let ghost dv = deep_view_seq(items@);
    if k < items.len() - 1 {
        push_char(out, ',');
        write_items(out, items, k + 1);
        proof {
            assert(dv.skip(k as int)[0] == items@[k as int].deep_view());
            assert(dv.skip(k as int).skip(1) =~= dv.skip(k as int + 1));
            assert(final(out)@ =~= old(out)@ + ser_items(dv.skip(k as int)));
        }
    } else {
        proof {
            assert(dv.skip(k as int).len() == 1);
            assert(dv.skip(k as int)[0] == items@[k as int].deep_view());
            assert(final(out)@ =~= old(out)@ + ser_items(dv.skip(k as int)));
        }
    }
}

/// Writes the fields of `fields` from position `k` on, separated by
/// commas.
pub(crate) fn write_fields(out: &mut String, fields: &Vec<(String, JsonValue)>, k: usize)
    requires
        k < fields@.len(),
    ensures
        final(out)@ == old(out)@ + ser_fields(deep_view_fields(fields@).skip(k as int)),
    decreases fields, 0nat, fields@.len() - k,
{
    proof {
        lemma_deep_view_fields_len(fields@);
        lemma_deep_view_fields_index(fields@, k as int);
    }
    write_string(out, &fields[k].0);
    push_char(out, ':');
    write_value(out, &fields[k].1);
    let ghost dv = deep_view_fields(fields@);
    if k < fields.len() - 1 {
        push_char(out, ',');
        write_fields(out, fields, k + 1);
        proof {
            assert(dv.skip(k as int)[0] == (fields@[k as int].0@, fields@[k as int].1.deep_view()));
            assert(dv.skip(k as int).skip(1) =~= dv.skip(k as int + 1));
            assert(final(out)@ =~= old(out)@ + ser_fields(dv.skip(k as int)));
        }
    } else {
        proof {
            assert(dv.skip(k as int).len() == 1);
            assert(dv.skip(k as int)[0] == (fields@[k as int].0@, fields@[k as int].1.deep_view()));
            assert(final(out)@ =~= old(out)@ + ser_fields(dv.skip(k as int)));
        }
    }
}

/// Writes the decimal digits of `m`.
fn write_mag(out: &mut String, m: u64)
    ensures
        final(out)@ == old(out)@ + dec_chars(dec_digits(m as int)),
    decreases m,
{
    if m < 10 {
        push_char(out, ((48 + m as u8)) as char);
        proof {
            assert(final(out)@ =~= old(out)@ + dec_chars(dec_digits(m as int)));
        }
    } else {
        write_mag(out, m / 10);
        push_char(out, (48 + (m % 10) as u8) as char);
        proof {
            let ds = dec_digits(m as int);
            assert(ds == dec_digits(m as int / 10).push(m as int % 10));
            assert(dec_chars(ds) =~= dec_chars(dec_digits(m as int / 10)).push(
                dec_char(m as int % 10),
            ));
            assert(final(out)@ =~= old(out)@ + dec_chars(ds));
        }
    }
}

/// Writes a signed integer in its canonical decimal form.
fn write_int(out: &mut String, i: i64)
    ensures
        final(out)@ == old(out)@ + ser_int(i as int),
{
    if i < 0 {
        push_char(out, '-');
        let mag: u64 = (-(i as i128)) as u64;
        write_mag(out, mag);
        proof {
            assert(mag as int == -(i as int));
            assert(final(out)@ =~= old(out)@ + ser_int(i as int));
        }
    } else {
        write_mag(out, i as u64);
    }
}

/// Writes the four hexadecimal characters of `u & 0xffff`.
fn write_hex4(out: &mut String, u: u32)
    requires
        u < 0x10000,
    ensures
        final(out)@ == old(out)@ + hex4(u as int),
{
    write_hex_digit(out, ((u / 0x1000) % 16) as u8);
    write_hex_digit(out, ((u / 0x100) % 16) as u8);
    write_hex_digit(out, ((u / 0x10) % 16) as u8);
    write_hex_digit(out, (u % 16) as u8);
    proof {
        assert(final(out)@ =~= old(out)@ + hex4(u as int));
    }
}

/// Writes one lowercase hexadecimal digit.
fn write_hex_digit(out: &mut String, d: u8)
    requires
        d < 16,
    ensures
        final(out)@ == old(out)@ + seq![hex_char(d as int)],
{
    if d < 10 {
        push_char(out, (48 + d) as char);
    } else {
        push_char(out, (87 + d) as char);
    }
    proof {
        assert(final(out)@ =~= old(out)@ + seq![hex_char(d as int)]);
    }
}

/// Writes a string literal, quotes and escapes included.
fn write_string(out: &mut String, cs: &String)
    ensures
        final(out)@ == old(out)@ + ser_string(cs@),
{
    push_char(out, '"');
    let chars = crate::strutil::chars_of_str(cs.as_str());
    let mut k: usize = 0;
    while k < chars.len()
        invariant
            k <= chars@.len(),
            chars@ == cs@,
            out@ == old(out)@ + seq!['"'] + ser_str_body_upto(cs@, k as nat),
        decreases chars@.len() - k,
    {
        let c = chars[k];
        let u = c as u32;
        if c == '"' {
            push_char(out, '\\');
            push_char(out, '"');
        } else if c == '\\' {
            push_char(out, '\\');
            push_char(out, '\\');
        } else if u == 0x0a {
            push_char(out, '\\');
            push_char(out, 'n');
        } else if u == 0x0d {
            push_char(out, '\\');
            push_char(out, 'r');
        } else if u == 0x09 {
            push_char(out, '\\');
            push_char(out, 't');
        } else if 0x20 <= u && u < 0x80 {
            push_char(out, c);
        } else if u < 0x10000 {
            push_char(out, '\\');
            push_char(out, 'u');
            write_hex4(out, u);
        } else {
            proof {
                vstd::utf8::char_is_scalar(c);
            }
            push_char(out, '\\');
            push_char(out, 'u');
            write_hex4(out, 0xd800 + (u - 0x10000) / 0x400);
            push_char(out, '\\');
            push_char(out, 'u');
            write_hex4(out, 0xdc00 + (u - 0x10000) % 0x400);
        }
        proof {
            lemma_ser_str_body_upto(cs@, k as nat);
            assert(out@ =~= old(out)@ + seq!['"'] + ser_str_body_upto(cs@, k as nat) + esc_char(
                cs@[k as int],
            ));
        }
        k += 1;
    }
    push_char(out, '"');
    proof {
        lemma_ser_str_body_upto_full(cs@);
        assert(final(out)@ =~= old(out)@ + ser_string(cs@));
    }
}

/// The string-body serialization of the first `k` characters.
pub open spec fn ser_str_body_upto(cs: Seq<char>, k: nat) -> Seq<char>
    decreases k,
{
    if k == 0 {
        Seq::empty()
    } else {
        ser_str_body_upto(cs, (k - 1) as nat) + esc_char(cs[k - 1])
    }
}

/// Extending the partial body by one character appends that character's
/// escape.
pub proof fn lemma_ser_str_body_upto(cs: Seq<char>, k: nat)
    ensures
        ser_str_body_upto(cs, k + 1) == ser_str_body_upto(cs, k) + esc_char(cs[k as int]),
{
}

/// The full partial body is the body.
pub proof fn lemma_ser_str_body_upto_full(cs: Seq<char>)
    ensures
        ser_str_body_upto(cs, cs.len()) =~= ser_str_body(cs),
{
    lemma_ser_str_body_parts(cs, cs.len());
    assert(ser_str_body(cs.take(cs.len() as int)) =~= ser_str_body(cs)) by {
        assert(cs.take(cs.len() as int) =~= cs);
    }
}

/// The partial body equals the body of the taken prefix.
pub proof fn lemma_ser_str_body_parts(cs: Seq<char>, k: nat)
    requires
        k <= cs.len(),
    ensures
        ser_str_body_upto(cs, k) =~= ser_str_body(cs.take(k as int)),
    decreases k,
{
    if k > 0 {
        lemma_ser_str_body_parts(cs, (k - 1) as nat);
        lemma_ser_str_body_snoc(cs.take(k as int));
        assert(cs.take(k as int).drop_last() =~= cs.take(k as int - 1));
        assert(cs.take(k as int).last() == cs[k - 1]);
    }
}

/// Serializing a body with one more character at the end appends that
/// character's escape.
pub proof fn lemma_ser_str_body_snoc(cs: Seq<char>)
    requires
        cs.len() > 0,
    ensures
        ser_str_body(cs) =~= ser_str_body(cs.drop_last()) + esc_char(cs.last()),
    decreases cs.len(),
{
    if cs.len() == 1 {
        assert(cs.skip(1) =~= Seq::<char>::empty());
        assert(cs.drop_last() =~= Seq::<char>::empty());
    } else {
        lemma_ser_str_body_snoc(cs.skip(1));
        assert(cs.skip(1).drop_last() =~= cs.drop_last().skip(1));
        assert(cs.skip(1).last() == cs.last());
        assert(cs.drop_last()[0] == cs[0]);
        assert(ser_str_body(cs.drop_last()) == esc_char(cs[0]) + ser_str_body(cs.drop_last().skip(1)));
        assert(ser_str_body(cs) =~= ser_str_body(cs.drop_last()) + esc_char(cs.last()));
    }
}

/// The canonical serialized text of a value.
pub fn to_json_string(v: &JsonValue) -> (r: String)
    ensures
        r@ == ser_value(v.deep_view()),
{
    let mut out = String::new();
    write_value(&mut out, v);
    out
}

/// Numeric values of the powers of ten that bound a 64-bit decimal.
proof fn lemma_pow10_bounds()
    ensures
        pow(10, 18) == 1000000000000000000,
        pow(10, 19) == 10000000000000000000,
{
    vstd::arithmetic::power::lemma_pow1(10);
    lemma_pow_adds(10, 1nat, 1nat);
    assert(pow(10, 2) == 100);
    lemma_pow_adds(10, 2nat, 2nat);
    assert(pow(10, 4) == 10000);
    lemma_pow_adds(10, 4nat, 4nat);
    assert(pow(10, 8) == 100000000);
    lemma_pow_adds(10, 8nat, 8nat);
    assert(pow(10, 16) == 10000000000000000);
    lemma_pow_adds(10, 16nat, 2nat);
    assert(pow(10, 18) == 1000000000000000000);
    lemma_pow_adds(10, 18nat, 1nat);
    assert(pow(10, 19) == 10000000000000000000);
}

/// The value of one hexadecimal character, if it has one.
fn hex_val_exec(c: char) -> (r: Option<u8>)
    ensures
        r is Some <==> hex_val(c) >= 0,
        r matches Some(d) ==> d as int == hex_val(c) && d < 16,
{
    let u = c as u32;
    if 48 <= u && u <= 57 {
        Some((u - 48) as u8)
    } else if 97 <= u && u <= 102 {
        Some((u - 87) as u8)
    } else if 65 <= u && u <= 70 {
        Some((u - 55) as u8)
    } else {
        None
    }
}

/// Relies on char::from_u32: the character with exactly the given scalar
/// value, defined for every value that is not a surrogate and not beyond
/// the last code point.
#[verifier::external_body]
fn char_from_u32(u: u32) -> (c: char)
    requires
        u < 0xd800 || (0xe000 <= u && u < 0x110000),
    ensures
        c as u32 == u,
{
    char::from_u32(u).unwrap()
}

/// Length of the digit run at position `i`.
fn scan_dec_exec(s: &Vec<char>, i: usize) -> (r: usize)
    requires
        i <= s@.len(),
    ensures
        r == scan_dec_digits(s@, i as nat),
        i + r <= s@.len(),
    decreases s@.len() - i,
{
    if i < s.len() {
        let u = s[i] as u32;
        if 48 <= u && u <= 57 {
            return 1 + scan_dec_exec(s, i + 1);
        }
    }
    0
}

/// Decides `parse_int` at position `i`.
fn parse_int_exec(s: &Vec<char>, i: usize) -> (r: Option<(i64, usize)>)
    requires
        i <= s@.len(),
    ensures
        r is Some <==> parse_int(s@, i as nat) is Some,
        r matches Some((v, c)) ==> parse_int(s@, i as nat) == Some((v as int, c as nat)) && i + c
            <= s@.len(),
{
    let neg = i < s.len() && s[i] == '-';
    let j = if neg {
        i + 1
    } else {
        i
    };
    let n = scan_dec_exec(s, j);
    if n == 0 {
        return None;
    }
    if s[j] == '0' && n > 1 {
        return None;
    }
    let ghost ds = Seq::new(n as nat, |t: int| (s@[j + t] as u32) - 48);
    proof {
        lemma_pow10_bounds();
        assert forall|k: int| 0 <= k < n implies 0 <= #[trigger] ds[k] < 10 by {
            lemma_scan_dec_run(s@, j as nat, k);
        }
    }
    if n > 19 {
        proof {
            lemma_fold_first_digit_lower(ds, 10);
            lemma_pow_increases(10, 19, (n - 1) as nat);
            lemma_scan_dec_run(s@, j as nat, 0);
            assert(ds[0] >= 1);
            assert(ds[0] * pow(10, (n - 1) as nat) >= 1 * pow(10, 19)) by (nonlinear_arith)
                requires
                    ds[0] >= 1,
                    pow(10, (n - 1) as nat) >= pow(10, 19),
                    pow(10, 19) > 0,
            ;
            assert(digit_run_value(s@, j as nat, n as nat) > 0x8000000000000000);
        }
        return None;
    }
    let slen = s.len();
    let mut acc: u64 = 0;
    let mut k: usize = 0;
    while k < n
        invariant
            k <= n,
            n <= 19,
            j + n <= slen,
            slen == s@.len(),
            ds == Seq::new(n as nat, |t: int| (s@[j + t] as u32) - 48),
            forall|t: int| 0 <= t < n ==> 0 <= #[trigger] ds[t] < 10,
            acc as int == fold_digits(ds.take(k as int), 10),
        decreases n - k,
    {
        let ghost prefix = ds.take(k as int);
        proof {
            lemma_pow10_bounds();
            assert(all_digits(prefix, 10));
            lemma_fold_bound(prefix, 10);
            lemma_pow_increases(10, k as nat, 18);
            assert(ds.take(k as int + 1).drop_last() =~= prefix);
            assert(ds.take(k as int + 1).last() == ds[k as int]);
            assert(ds[k as int] == (s@[j + k] as u32) - 48);
        }
        let d = (s[j + k] as u32 - 48) as u64;
        acc = acc * 10 + d;
        k += 1;
    }
    proof {
        assert(ds.take(n as int) =~= ds);
    }
    if neg {
        if acc > 0x8000000000000000 {
            return None;
        }
        Some(((-(acc as i128)) as i64, n + 1))
    } else {
        if acc > 0x7fffffffffffffff {
            return None;
        }
        Some((acc as i64, n))
    }
}

/// Every character of a digit run is a digit.
proof fn lemma_scan_dec_run(s: Seq<char>, i: nat, k: int)
    requires
        i <= s.len(),
        0 <= k < scan_dec_digits(s, i),
    ensures
        i + k < s.len(),
        is_dec_digit(s[i + k]),
        ((s[i + k] as u32) - 48) >= if k == 0 && s[i as int] != '0' { 1int } else { 0int },
    decreases k,
{
    lemma_scan_dec_bounds(s, i);
    if k > 0 {
        lemma_scan_dec_run(s, i + 1, k - 1);
    } else {
        let c = s[i as int];
        if c != '0' && (c as u32) == 48 {
            vstd::utf8::char_u32_cast(c, 48);
            vstd::utf8::char_u32_cast('0', 48);
            assert(false);
        }
    }
}

/// Decides `parse_string_body` at position `i`, building the denoted
/// string.
fn parse_string_body_exec(s: &Vec<char>, i: usize) -> (r: Option<(String, usize)>)
    requires
        i <= s@.len(),
    ensures
        r is Some <==> parse_string_body(s@, i as nat) is Some,
        r matches Some((cs, m)) ==> parse_string_body(s@, i as nat) == Some((cs@, m as nat)) && i
            + m <= s@.len(),
    decreases s@.len() - i, 1nat,
{
    if i >= s.len() {
        return None;
    }
    let c0 = s[i];
    if c0 == '"' {
        return Some((String::new(), 1));
    }
    if c0 == '\\' {
        if i + 1 >= s.len() {
            return None;
        }
        let e = s[i + 1];
        if e == '"' || e == '\\' || e == '/' {
            return cons_tail(s, i, e, 2);
        }
        if e == 'n' {
            return cons_tail(s, i, '\n', 2);
        }
        if e == 'r' {
            return cons_tail(s, i, '\r', 2);
        }
        if e == 't' {
            return cons_tail(s, i, '\t', 2);
        }
        if e == 'b' {
            return cons_tail(s, i, 8u8 as char, 2);
        }
        if e == 'f' {
            return cons_tail(s, i, 12u8 as char, 2);
        }
        if e == 'u' {
            if s.len() - i < 6 {
                return None;
            }
            let h0 = hex_val_exec(s[i + 2]);
            let h1 = hex_val_exec(s[i + 3]);
            let h2 = hex_val_exec(s[i + 4]);
            let h3 = hex_val_exec(s[i + 5]);
            match (h0, h1, h2, h3) {
                (Some(a), Some(b), Some(c), Some(d)) => {
                    let u: u32 = (a as u32) * 0x1000 + (b as u32) * 0x100 + (c as u32) * 0x10 + (
                    d as u32);
                    if 0xd800 <= u && u < 0xdc00 {
                        if 12 <= s.len() - i && s[i + 6] == '\\' && s[i + 7] == 'u' {
                            let g0 = hex_val_exec(s[i + 8]);
                            let g1 = hex_val_exec(s[i + 9]);
                            let g2 = hex_val_exec(s[i + 10]);
                            let g3 = hex_val_exec(s[i + 11]);
                            match (g0, g1, g2, g3) {
                                (Some(a2), Some(b2), Some(c2), Some(d2)) => {
                                    let l: u32 = (a2 as u32) * 0x1000 + (b2 as u32) * 0x100 + (
                                    c2 as u32) * 0x10 + (d2 as u32);
                                    if 0xdc00 <= l && l < 0xe000 {
                                        let cp: u32 = 0x10000 + (u - 0xd800) * 0x400 + (l
                                            - 0xdc00);
                                        let ch = char_from_u32(cp);
                                        proof {
                                            vstd::utf8::char_u32_cast(ch, cp);
                                        }
                                        cons_tail(s, i, ch, 12)
                                    } else {
                                        None
                                    }
                                },
                                _ => None,
                            }
                        } else {
                            None
                        }
                    } else if 0xdc00 <= u && u < 0xe000 {
                        None
                    } else {
                        let ch = char_from_u32(u);
                        proof {
                            vstd::utf8::char_u32_cast(ch, u);
                        }
                        cons_tail(s, i, ch, 6)
                    }
                },
                _ => None,
            }
        } else {
            None
        }
    } else if (c0 as u32) < 0x20 {
        None
    } else {
        cons_tail(s, i, c0, 1)
    }
}

/// One decoded character followed by the rest of the string body.
fn cons_tail(s: &Vec<char>, i: usize, c: char, k: usize) -> (r: Option<(String, usize)>)
    requires
        i <= s@.len(),
        1 <= k,
    ensures
        r is Some <==> parse_string_tail(s@, i as nat, c, k as nat) is Some,
        r matches Some((cs, m)) ==> parse_string_tail(s@, i as nat, c, k as nat) == Some(
            (cs@, m as nat),
        ) && i + m <= s@.len(),
    decreases s@.len() - i, 0nat,
{
    if k > s.len() - i {
        return None;
    }
    match parse_string_body_exec(s, i + k) {
        Some((rest, m)) => {
            let mut out = String::new();
            push_char(&mut out, c);
            out.append(rest.as_str());
            Some((out, k + m))
        },
        None => None,
    }
}

/// Decoded views of a vector with one value put in front.
pub proof fn lemma_deep_view_seq_cons(x: JsonValue, items: Seq<JsonValue>)
    ensures
        deep_view_seq(seq![x] + items) =~= seq![x.deep_view()] + deep_view_seq(items),
{
    lemma_deep_view_seq_len(items);
    lemma_deep_view_seq_len(seq![x] + items);
    assert forall|i: int| 0 <= i < items.len() + 1 implies deep_view_seq(seq![x] + items)[i] == (
    seq![x.deep_view()] + deep_view_seq(items))[i] by {
        lemma_deep_view_seq_index(seq![x] + items, i);
        if i > 0 {
            lemma_deep_view_seq_index(items, i - 1);
            assert((seq![x] + items)[i] == items[i - 1]);
        } else {
            assert((seq![x] + items)[0] == x);
        }
    }
}

/// Decoded views of a field vector with one pair put in front.
pub proof fn lemma_deep_view_fields_cons(x: (String, JsonValue), fields: Seq<(String, JsonValue)>)
    ensures
        deep_view_fields(seq![x] + fields) =~= seq![(x.0@, x.1.deep_view())] + deep_view_fields(
            fields,
        ),
{
    lemma_deep_view_fields_len(fields);
    lemma_deep_view_fields_len(seq![x] + fields);
    assert forall|i: int| 0 <= i < fields.len() + 1 implies deep_view_fields(seq![x] + fields)[i]
        == (seq![(x.0@, x.1.deep_view())] + deep_view_fields(fields))[i] by {
        lemma_deep_view_fields_index(seq![x] + fields, i);
        if i > 0 {
            lemma_deep_view_fields_index(fields, i - 1);
            assert((seq![x] + fields)[i] == fields[i - 1]);
        } else {
            assert((seq![x] + fields)[0] == x);
        }
    }
}

/// Decides `parse_value` at position `i`, building the parsed value.
fn parse_value_exec(s: &Vec<char>, i: usize) -> (r: Option<(JsonValue, usize)>)
    requires
        i <= s@.len(),
    ensures
        r is Some <==> parse_value(s@, i as nat) is Some,
        r matches Some((jv, c)) ==> parse_value(s@, i as nat) == Some((jv.deep_view(), c as nat))
            && i + c <= s@.len(),
    decreases s@.len() - i, 2nat,
{
    proof {
        lemma_parse_bounds(s@, i as nat);
    }
    if i >= s.len() {
        return None;
    }
    let c0 = s[i];
    if c0 == 'n' {
        if 4 <= s.len() - i && s[i + 1] == 'u' && s[i + 2] == 'l' && s[i + 3] == 'l' {
            Some((JsonValue::Null, 4))
        } else {
            None
        }
    } else if c0 == 't' {
        if 4 <= s.len() - i && s[i + 1] == 'r' && s[i + 2] == 'u' && s[i + 3] == 'e' {
            Some((JsonValue::Bool(true), 4))
        } else {
            None
        }
    } else if c0 == 'f' {
        if 5 <= s.len() - i && s[i + 1] == 'a' && s[i + 2] == 'l' && s[i + 3] == 's' && s[i + 4]
            == 'e' {
            Some((JsonValue::Bool(false), 5))
        } else {
            None
        }
    } else if c0 == '"' {
        match parse_string_body_exec(s, i + 1) {
            Some((cs, m)) => Some((JsonValue::Str(cs), 1 + m)),
            None => None,
        }
    } else if c0 == '[' {
        if i + 1 < s.len() && s[i + 1] == ']' {
            proof {
                lemma_deep_view_seq_len(Seq::<JsonValue>::empty());
                assert(deep_view_seq(Seq::<JsonValue>::empty()) =~= Seq::<SpecJson>::empty());
            }
            Some((JsonValue::Arr(Vec::new()), 2))
        } else {
            match parse_items_exec(s, i + 1) {
                Some((vs, m)) => Some((JsonValue::Arr(vs), 1 + m)),
                None => None,
            }
        }
    } else if c0 == '{' {
        if i + 1 < s.len() && s[i + 1] == '}' {
            proof {
                lemma_deep_view_fields_len(Seq::<(String, JsonValue)>::empty());
                assert(deep_view_fields(Seq::<(String, JsonValue)>::empty()) =~= Seq::<
                    (Seq<char>, SpecJson),
                >::empty());
            }
            Some((JsonValue::Obj(Vec::new()), 2))
        } else {
            match parse_fields_exec(s, i + 1) {
                Some((fs, m)) => Some((JsonValue::Obj(fs), 1 + m)),
                None => None,
            }
        }
    } else {
        let u = c0 as u32;
        if c0 == '-' || (48 <= u && u <= 57) {
            match parse_int_exec(s, i) {
                Some((v, c)) => Some((JsonValue::Int(v), c)),
                None => None,
            }
        } else {
            None
        }
    }
}

/// Decides `parse_items` at position `i`, building the parsed elements.
fn parse_items_exec(s: &Vec<char>, i: usize) -> (r: Option<(Vec<JsonValue>, usize)>)
    requires
        i <= s@.len(),
    ensures
        r is Some <==> parse_items(s@, i as nat) is Some,
        r matches Some((vs, m)) ==> parse_items(s@, i as nat) == Some(
            (deep_view_seq(vs@), m as nat),
        ) && i + m <= s@.len(),
    decreases s@.len() - i, 3nat,
{
    proof {
        lemma_parse_bounds(s@, i as nat);
    }
    match parse_value_exec(s, i) {
        None => None,
        Some((v, c)) => {
            if c < s.len() - i && s[i + c] == ',' {
                proof {
                    lemma_parse_bounds(s@, (i + c + 1) as nat);
                }
                match parse_items_exec(s, i + c + 1) {
                    Some((mut vs, m)) => {
                        let ghost old_vs = vs@;
                        vs.insert(0, v);
                        proof {
                            assert(vs@ =~= seq![v] + old_vs);
                            lemma_deep_view_seq_cons(v, old_vs);
                        }
                        Some((vs, c + 1 + m))
                    },
                    None => None,
                }
            } else if c < s.len() - i && s[i + c] == ']' {
                let mut vs: Vec<JsonValue> = Vec::new();
                vs.push(v);
                proof {
                    assert(vs@ =~= seq![v]);
                    lemma_deep_view_seq_cons(v, Seq::empty());
                    assert(deep_view_seq(Seq::<JsonValue>::empty()) =~= Seq::<SpecJson>::empty());
                    assert(seq![v] + Seq::<JsonValue>::empty() =~= seq![v]);
                    assert(deep_view_seq(seq![v]) =~= seq![v.deep_view()]);
                }
                Some((vs, c + 1))
            } else {
                None
            }
        },
    }
}

/// Decides `parse_fields` at position `i`, building the parsed pairs.
fn parse_fields_exec(s: &Vec<char>, i: usize) -> (r: Option<(Vec<(String, JsonValue)>, usize)>)
    requires
        i <= s@.len(),
    ensures
        r is Some <==> parse_fields(s@, i as nat) is Some,
        r matches Some((fs, m)) ==> parse_fields(s@, i as nat) == Some(
            (deep_view_fields(fs@), m as nat),
        ) && i + m <= s@.len(),
    decreases s@.len() - i, 3nat,
{
    proof {
        lemma_parse_bounds(s@, i as nat);
    }
    if i < s.len() && s[i] == '"' {
        match parse_string_body_exec(s, i + 1) {
            None => None,
            Some((key, ck)) => {
                if ck < s.len() - i - 1 && s[i + 1 + ck] == ':' {
                    proof {
                        lemma_parse_bounds(s@, (i + ck + 2) as nat);
                    }
                    match parse_value_exec(s, i + ck + 2) {
                        None => None,
                        Some((v, cv)) => {
                            let e = i + ck + 2 + cv;
                            if e < s.len() && s[e] == ',' {
                                proof {
                                    lemma_parse_bounds(s@, (e + 1) as nat);
                                }
                                match parse_fields_exec(s, e + 1) {
                                    Some((mut fs, m)) => {
                                        let ghost old_fs = fs@;
                                        fs.insert(0, (key, v));
                                        proof {
                                            assert(fs@ =~= seq![(key, v)] + old_fs);
                                            lemma_deep_view_fields_cons((key, v), old_fs);
                                        }
                                        Some((fs, ck + 2 + cv + 1 + m))
                                    },
                                    None => None,
                                }
                            } else if e < s.len() && s[e] == '}' {
                                let mut fs: Vec<(String, JsonValue)> = Vec::new();
                                fs.push((key, v));
                                proof {
                                    assert(fs@ =~= seq![(key, v)]);
                                    lemma_deep_view_fields_cons((key, v), Seq::empty());
                                    assert(deep_view_fields(Seq::<(String, JsonValue)>::empty())
                                        =~= Seq::<(Seq<char>, SpecJson)>::empty());
                                    assert(seq![(key, v)] + Seq::<(String, JsonValue)>::empty()
                                        =~= seq![(key, v)]);
                                }
                                Some((fs, ck + 2 + cv + 1))
                            } else {
                                None
                            }
                        },
                    }
                } else {
                    None
                }
            },
        }
    } else {
        None
    }
}

/// Parses a whole document: one value covering the entire text.
pub fn parse_json_exec(s: &Vec<char>) -> (r: Option<JsonValue>)
    ensures
        r is Some <==> parse_json(s@) is Some,
        r matches Some(jv) ==> parse_json(s@) == Some(jv.deep_view()),
{
    match parse_value_exec(s, 0) {
        Some((v, n)) => {
            if n == s.len() {
                Some(v)
            } else {
                None
            }
        },
        None => None,
    }
}

/// The characters `w` stand in `s` at position `i`.
pub open spec fn window(s: Seq<char>, i: nat, w: Seq<char>) -> bool {
    i + w.len() <= s.len() && s.subrange(i as int, (i + w.len()) as int) == w
}

/// Each character of a window is the matching character of `s`.
pub proof fn lemma_window_index(s: Seq<char>, i: nat, w: Seq<char>)
    requires
        window(s, i, w),
    ensures
        forall|k: int| 0 <= k < w.len() ==> s[i + k] == #[trigger] w[k],
{
    assert forall|k: int| 0 <= k < w.len() implies s[i + k] == #[trigger] w[k] by {
        assert(s.subrange(i as int, (i + w.len()) as int)[k] == s[i + k]);
    }
}

/// A window of a concatenation splits into two adjacent windows.
pub proof fn lemma_window_split(s: Seq<char>, i: nat, w1: Seq<char>, w2: Seq<char>)
    requires
        window(s, i, w1 + w2),
    ensures
        window(s, i, w1),
        window(s, (i + w1.len()) as nat, w2),
{
    lemma_window_index(s, i, w1 + w2);
    assert forall|k: int| 0 <= k < w1.len() implies s[i + k] == w1[k] by {
        assert((w1 + w2)[k] == w1[k]);
    }
    assert forall|k: int| 0 <= k < w2.len() implies s[i + w1.len() + k] == w2[k] by {
        assert((w1 + w2)[w1.len() + k] == w2[k]);
    }
    assert(s.subrange(i as int, (i + w1.len()) as int) =~= w1);
    assert(s.subrange((i + w1.len()) as int, (i + w1.len() + w2.len()) as int) =~= w2);
}

/// The character after position `j` closes or separates a value, or the
/// text ends there.
pub open spec fn delim_at(s: Seq<char>, j: nat) -> bool {
    j == s.len() || s[j as int] == ',' || s[j as int] == ']' || s[j as int] == '}'
}

/// Every serialized value is non-empty and never opens with a closing
/// character or a colon.
pub proof fn lemma_ser_first(v: SpecJson)
    ensures
        ser_value(v).len() >= 1,
        ser_value(v)[0] != ']',
        ser_value(v)[0] != '}',
    decreases v,
{
    match v {
        SpecJson::Int(i) => {
            if i < 0 {
            } else {
                assert(ser_value(v)[0] == dec_char(dec_digits(i)[0]));
                assert(0 <= dec_digits(i)[0] < 10) by {
                    lemma_dec_digits_range(i);
                }
            }
        },
        _ => {},
    }
}

/// Decimal digits are digits, the run is non-empty, and a number of ten or
/// more never opens with a zero.
pub proof fn lemma_dec_digits_range(m: int)
    ensures
        dec_digits(m).len() >= 1,
        forall|k: int| 0 <= k < dec_digits(m).len() ==> 0 <= #[trigger] dec_digits(m)[k] < 10,
        m >= 10 ==> dec_digits(m)[0] >= 1,
        m >= 10 ==> dec_digits(m).len() >= 2,
        m >= 0 ==> fold_digits(dec_digits(m), 10) == m,
    decreases m,
{
    reveal_with_fuel(fold_digits, 3);
    if m >= 10 {
        lemma_dec_digits_range(m / 10);
        let ds = dec_digits(m);
        assert(ds == dec_digits(m / 10).push(m % 10));
        assert(ds.drop_last() =~= dec_digits(m / 10));
        assert(forall|k: int|
            0 <= k < ds.len() - 1 ==> #[trigger] ds[k] == dec_digits(m / 10)[k]);
        assert(fold_digits(ds, 10) == fold_digits(dec_digits(m / 10), 10) * 10 + m % 10);
        assert((m / 10) * 10 + m % 10 == m) by {
            vstd::arithmetic::div_mod::lemma_fundamental_div_mod(m, 10);
        }
    }
}

/// A run of digit characters followed by a non-digit scans to exactly its
/// length.
pub proof fn lemma_scan_digit_run(s: Seq<char>, i: nat, n: nat)
    requires
        i + n <= s.len(),
        forall|k: int| 0 <= k < n ==> is_dec_digit(#[trigger] s[i + k]),
        i + n == s.len() || !is_dec_digit(s[(i + n) as int]),
    ensures
        scan_dec_digits(s, i) == n,
    decreases n,
{
    if n == 0 {
    } else {
        assert(is_dec_digit(s[i + 0int]));
        assert(is_dec_digit(s[i as int]));
        assert forall|k: int| 0 <= k < n - 1 implies is_dec_digit(#[trigger] s[(i + 1) + k]) by {
            assert(s[(i + 1) + k] == s[i + (k + 1)]);
        }
        lemma_scan_digit_run(s, i + 1, (n - 1) as nat);
    }
}

/// Parsing recovers a serialized number.
pub proof fn lemma_parse_ser_int(v: int, s: Seq<char>, i: nat)
    requires
        -0x8000000000000000 <= v <= 0x7fffffffffffffff,
        window(s, i, ser_int(v)),
        delim_at(s, (i + ser_int(v).len()) as nat),
    ensures
        parse_int(s, i) == Some((v, ser_int(v).len() as nat)),
{
    let w = ser_int(v);
    lemma_window_index(s, i, w);
    let m = if v < 0 { -v } else { v };
    let ds = dec_digits(m);
    lemma_dec_digits_range(m);
    let j: nat = if v < 0 { (i + 1) as nat } else { i };
    if v < 0 {
        assert(w[0] == '-');
        assert(s[i + 0int] == w[0]);
        assert(s[i as int] == '-');
    }
    // the digit characters of the run
    assert forall|k: int| 0 <= k < ds.len() implies s[j + k] == dec_char(ds[k]) && is_dec_digit(
        #[trigger] s[j + k],
    ) by {
        if v < 0 {
            assert(w[k + 1] == dec_chars(ds)[k]);
        } else {
            assert(w[k] == dec_chars(ds)[k]);
        }
    }
    assert(i + w.len() == j + ds.len());
    if j + ds.len() < s.len() {
        assert(!is_dec_digit(s[(j + ds.len()) as int]));
    }
    lemma_scan_digit_run(s, j, ds.len());
    assert(scan_dec_digits(s, j) == ds.len());
    // the parsed digit values are the digits
    let rs = Seq::new(ds.len(), |k: int| (s[j + k] as u32) - 48);
    assert forall|k: int| 0 <= k < ds.len() implies rs[k] == ds[k] by {
        assert(s[j + k] == dec_char(ds[k]));
        assert(0 <= ds[k] < 10);
        assert((dec_char(ds[k]) as u32) == 48 + ds[k]);
    }
    assert(rs =~= ds);
    assert(digit_run_value(s, j, ds.len()) == m);
    // the sign and the leading-zero rule
    if v < 0 {
        assert(s[i as int] == '-');
        assert(m >= 1);
        if ds.len() > 1 {
            assert(s[j as int] == dec_char(ds[0]));
            assert(ds[0] >= 1);
            assert((s[j as int] as u32) != 48);
            assert(s[j as int] != '0') by {
                if s[j as int] == '0' {
                    assert((s[j as int] as u32) == 48);
                }
            }
        } else {
            assert(m < 10);
            assert(ds[0] == m);
            assert(s[j as int] == dec_char(m));
            assert((s[j as int] as u32) == 48 + m);
            if s[j as int] == '0' && scan_dec_digits(s, j) > 1 {
                assert(false);
            }
        }
    } else {
        assert(s[i as int] == dec_char(ds[0]));
        assert((s[i as int] as u32) == 48 + ds[0]);
        assert(s[i as int] != '-') by {
            if s[i as int] == '-' {
                assert((s[i as int] as u32) == 45);
            }
        }
        if ds.len() > 1 {
            assert(ds[0] >= 1);
            assert(s[j as int] != '0') by {
                if s[j as int] == '0' {
                    assert((s[j as int] as u32) == 48);
                }
            }
        } else {
            if s[j as int] == '0' && scan_dec_digits(s, j) > 1 {
                assert(false);
            }
        }
    }
}

/// The hexadecimal character of a digit reads back as that digit.
pub proof fn lemma_hex_char_val(d: int)
    requires
        0 <= d < 16,
    ensures
        hex_val(hex_char(d)) == d,
{
}

/// The four hexadecimal characters of a value below 0x10000 read back as
/// that value.
pub proof fn lemma_hex4_value(u: int)
    requires
        0 <= u < 0x10000,
    ensures
        hex_val(hex4(u)[0]) >= 0,
        hex_val(hex4(u)[1]) >= 0,
        hex_val(hex4(u)[2]) >= 0,
        hex_val(hex4(u)[3]) >= 0,
        hex_val(hex4(u)[0]) * 0x1000 + hex_val(hex4(u)[1]) * 0x100 + hex_val(hex4(u)[2]) * 0x10
            + hex_val(hex4(u)[3]) == u,
{
    lemma_hex_char_val(u / 0x1000 % 16);
    lemma_hex_char_val(u / 0x100 % 16);
    lemma_hex_char_val(u / 0x10 % 16);
    lemma_hex_char_val(u % 16);
    assert((u / 0x1000 % 16) * 0x1000 + (u / 0x100 % 16) * 0x100 + (u / 0x10 % 16) * 0x10 + (u
        % 16) == u) by {
        vstd::arithmetic::div_mod::lemma_fundamental_div_mod(u, 0x10);
        vstd::arithmetic::div_mod::lemma_fundamental_div_mod(u / 0x10, 0x10);
        vstd::arithmetic::div_mod::lemma_fundamental_div_mod(u / 0x100, 0x10);
        assert(u / 0x10 / 0x10 == u / 0x100) by {
            vstd::arithmetic::div_mod::lemma_div_denominator(u, 0x10, 0x10);
        }
        assert(u / 0x100 / 0x10 == u / 0x1000) by {
            vstd::arithmetic::div_mod::lemma_div_denominator(u, 0x100, 0x10);
        }
        assert(u / 0x1000 % 16 == u / 0x1000) by {
            lemma_small_mod_int(u / 0x1000, 16);
        }
    }
}

/// A non-negative value below the modulus is its own remainder.
proof fn lemma_small_mod_int(x: int, m: int)
    requires
        0 <= x < m,
    ensures
        x % m == x,
{
    vstd::arithmetic::div_mod::lemma_small_mod(x as nat, m as nat);
}

/// Parsing recovers a serialized string body, closing quote included.
#[verifier::rlimit(100)]
pub proof fn lemma_parse_ser_str_body(cs: Seq<char>, s: Seq<char>, i: nat)
    requires
        i + ser_str_body(cs).len() + 1 <= s.len(),
        s.subrange(i as int, (i + ser_str_body(cs).len()) as int) == ser_str_body(cs),
        s[(i + ser_str_body(cs).len()) as int] == '"',
    ensures
        parse_string_body(s, i) == Some((cs, (ser_str_body(cs).len() + 1) as nat)),
    decreases cs.len(), 1nat,
{
    if cs.len() == 0 {
        lemma_window_index(s, i, ser_str_body(cs));
        assert(s[i as int] == '"');
    } else {
        lemma_str_body_decompose(cs, s, i);
        lemma_parse_ser_str_step(cs, s, i);
        lemma_ser_str_body_step(cs);
    }
}

/// One escape at the head of the text, with the rest already parsed,
/// yields the whole string.
proof fn lemma_parse_ser_str_step(cs: Seq<char>, s: Seq<char>, i: nat)
    requires
        cs.len() >= 1,
        i + esc_char(cs[0]).len() <= s.len(),
        forall|k: int|
            0 <= k < esc_char(cs[0]).len() ==> s[i + k] == #[trigger] esc_char(cs[0])[k],
        parse_string_body(s, (i + esc_char(cs[0]).len()) as nat) == Some(
            (cs.skip(1), (ser_str_body(cs.skip(1)).len() + 1) as nat),
        ),
    ensures
        parse_string_body(s, i) == Some(
            (cs, (esc_char(cs[0]).len() + ser_str_body(cs.skip(1)).len() + 1) as nat),
        ),
{
    let c = cs[0];
    let u = c as u32;
    if c == '"' || c == '\\' || u == 0x0a || u == 0x0d || u == 0x09 || (0x20 <= u && u < 0x80) {
        lemma_parse_esc_simple_whole(cs, s, i);
    } else if u < 0x10000 {
        lemma_parse_esc_u_single_whole(cs, s, i);
    } else {
        lemma_parse_esc_u_pair_whole(cs, s, i);
    }
}

/// `lemma_parse_esc_simple`, stated of the whole string.
#[verifier::rlimit(100)]
proof fn lemma_parse_esc_simple_whole(cs: Seq<char>, s: Seq<char>, i: nat)
    requires
        cs.len() >= 1,
        cs[0] == '"' || cs[0] == '\\' || (cs[0] as u32) == 0x0a || (cs[0] as u32) == 0x0d || (
        cs[0] as u32) == 0x09 || (0x20 <= (cs[0] as u32) && (cs[0] as u32) < 0x80),
        i + esc_char(cs[0]).len() <= s.len(),
        forall|k: int|
            0 <= k < esc_char(cs[0]).len() ==> s[i + k] == #[trigger] esc_char(cs[0])[k],
        parse_string_body(s, (i + esc_char(cs[0]).len()) as nat) == Some(
            (cs.skip(1), (ser_str_body(cs.skip(1)).len() + 1) as nat),
        ),
    ensures
        parse_string_body(s, i) == Some(
            (cs, (esc_char(cs[0]).len() + ser_str_body(cs.skip(1)).len() + 1) as nat),
        ),
{
    lemma_parse_esc_simple(cs[0], cs.skip(1), (ser_str_body(cs.skip(1)).len() + 1) as nat, s, i);
    assert(seq![cs[0]] + cs.skip(1) =~= cs);
}

/// `lemma_parse_esc_u_single`, stated of the whole string.
#[verifier::rlimit(100)]
proof fn lemma_parse_esc_u_single_whole(cs: Seq<char>, s: Seq<char>, i: nat)
    requires
        cs.len() >= 1,
        cs[0] != '"' && cs[0] != '\\',
        (cs[0] as u32) != 0x0a && (cs[0] as u32) != 0x0d && (cs[0] as u32) != 0x09,
        !(0x20 <= (cs[0] as u32) && (cs[0] as u32) < 0x80),
        (cs[0] as u32) < 0x10000,
        i + esc_char(cs[0]).len() <= s.len(),
        forall|k: int|
            0 <= k < esc_char(cs[0]).len() ==> s[i + k] == #[trigger] esc_char(cs[0])[k],
        parse_string_body(s, (i + esc_char(cs[0]).len()) as nat) == Some(
            (cs.skip(1), (ser_str_body(cs.skip(1)).len() + 1) as nat),
        ),
    ensures
        parse_string_body(s, i) == Some(
            (cs, (esc_char(cs[0]).len() + ser_str_body(cs.skip(1)).len() + 1) as nat),
        ),
{
    assert(esc_char(cs[0]).len() == 6);
    lemma_parse_esc_u_single(cs[0], cs.skip(1), (ser_str_body(cs.skip(1)).len() + 1) as nat, s, i);
    assert(seq![cs[0]] + cs.skip(1) =~= cs);
}

/// `lemma_parse_esc_u_pair`, stated of the whole string.
#[verifier::rlimit(100)]
proof fn lemma_parse_esc_u_pair_whole(cs: Seq<char>, s: Seq<char>, i: nat)
    requires
        cs.len() >= 1,
        (cs[0] as u32) >= 0x10000,
        i + esc_char(cs[0]).len() <= s.len(),
        forall|k: int|
            0 <= k < esc_char(cs[0]).len() ==> s[i + k] == #[trigger] esc_char(cs[0])[k],
        parse_string_body(s, (i + esc_char(cs[0]).len()) as nat) == Some(
            (cs.skip(1), (ser_str_body(cs.skip(1)).len() + 1) as nat),
        ),
    ensures
        parse_string_body(s, i) == Some(
            (cs, (esc_char(cs[0]).len() + ser_str_body(cs.skip(1)).len() + 1) as nat),
        ),
{
    vstd::utf8::char_is_scalar(cs[0]);
    assert(esc_char(cs[0]).len() == 12);
    lemma_parse_esc_u_pair(cs[0], cs.skip(1), (ser_str_body(cs.skip(1)).len() + 1) as nat, s, i);
    assert(seq![cs[0]] + cs.skip(1) =~= cs);
}

/// The serialized body of a non-empty string splits at its first escape.
pub proof fn lemma_ser_str_body_step(cs: Seq<char>)
    requires
        cs.len() >= 1,
    ensures
        ser_str_body(cs).len() == esc_char(cs[0]).len() + ser_str_body(cs.skip(1)).len(),
{
}

/// The first escape of a serialized body stands at its start, and the rest
/// of the body parses back.
#[verifier::rlimit(100)]
proof fn lemma_str_body_decompose(cs: Seq<char>, s: Seq<char>, i: nat)
    requires
        cs.len() >= 1,
        i + ser_str_body(cs).len() + 1 <= s.len(),
        s.subrange(i as int, (i + ser_str_body(cs).len()) as int) == ser_str_body(cs),
        s[(i + ser_str_body(cs).len()) as int] == '"',
    ensures
        i + esc_char(cs[0]).len() <= s.len(),
        forall|k: int|
            0 <= k < esc_char(cs[0]).len() ==> s[i + k] == #[trigger] esc_char(cs[0])[k],
        parse_string_body(s, (i + esc_char(cs[0]).len()) as nat) == Some(
            (cs.skip(1), (ser_str_body(cs.skip(1)).len() + 1) as nat),
        ),
    decreases cs.len(), 0nat,
{
    let body = ser_str_body(cs);
    lemma_window_index(s, i, body);
    let c = cs[0];
    let rest = cs.skip(1);
    let e = esc_char(c);
    let restbody = ser_str_body(rest);
    assert(body == e + restbody);
    let j: nat = (i + e.len()) as nat;
    assert(s.subrange(j as int, (j + restbody.len()) as int) =~= restbody) by {
        assert forall|k: int| 0 <= k < restbody.len() implies s[j + k] == restbody[k] by {
            assert(body[e.len() + k] == restbody[k]);
            assert(s[i + (e.len() + k)] == body[e.len() + k]);
        }
    }
    assert(s[(j + restbody.len()) as int] == '"');
    lemma_parse_ser_str_body(rest, s, j);
    assert forall|k: int| 0 <= k < e.len() implies s[i + k] == #[trigger] e[k] by {
        assert(body[k] == e[k]);
    }
}

/// Parsing recovers a short escape or a raw printable character followed
/// by a parsed rest.
#[verifier::rlimit(100)]
proof fn lemma_parse_esc_simple(c: char, rest: Seq<char>, m: nat, s: Seq<char>, i: nat)
    requires
        c == '"' || c == '\\' || (c as u32) == 0x0a || (c as u32) == 0x0d || (c as u32) == 0x09
            || (0x20 <= (c as u32) && (c as u32) < 0x80),
        i + esc_char(c).len() <= s.len(),
        forall|k: int| 0 <= k < esc_char(c).len() ==> s[i + k] == #[trigger] esc_char(c)[k],
        parse_string_body(s, (i + esc_char(c).len()) as nat) == Some((rest, m)),
    ensures
        parse_string_body(s, i) == Some((seq![c] + rest, (esc_char(c).len() + m) as nat)),
{
    let u = c as u32;
    vstd::utf8::char_u32_cast(c, u);
    let e = esc_char(c);
    if c == '"' {
        assert(esc_char(c)[0] == '\\' && esc_char(c)[1] == '"');
        assert(s[i + 0int] == esc_char(c)[0] && s[i + 1int] == esc_char(c)[1]);
        assert(parse_string_tail(s, i, '"', 2) == Some((seq![c] + rest, (2 + m) as nat)));
    } else if c == '\\' {
        assert(esc_char(c)[0] == '\\' && esc_char(c)[1] == '\\');
        assert(s[i + 0int] == esc_char(c)[0] && s[i + 1int] == esc_char(c)[1]);
        assert(parse_string_tail(s, i, '\\', 2) == Some((seq![c] + rest, (2 + m) as nat)));
    } else if u == 0x0a {
        assert(esc_char(c)[0] == '\\' && esc_char(c)[1] == 'n');
        assert(s[i + 0int] == esc_char(c)[0] && s[i + 1int] == esc_char(c)[1]);
        vstd::utf8::char_u32_cast('\n', 0x0a);
        assert(c == '\n');
        assert(parse_string_tail(s, i, c, 2) == Some((seq![c] + rest, (2 + m) as nat)));
    } else if u == 0x0d {
        assert(esc_char(c)[0] == '\\' && esc_char(c)[1] == 'r');
        assert(s[i + 0int] == esc_char(c)[0] && s[i + 1int] == esc_char(c)[1]);
        vstd::utf8::char_u32_cast('\r', 0x0d);
        assert(c == '\r');
        assert(parse_string_tail(s, i, c, 2) == Some((seq![c] + rest, (2 + m) as nat)));
    } else if u == 0x09 {
        assert(esc_char(c)[0] == '\\' && esc_char(c)[1] == 't');
        assert(s[i + 0int] == esc_char(c)[0] && s[i + 1int] == esc_char(c)[1]);
        vstd::utf8::char_u32_cast('\t', 0x09);
        assert(c == '\t');
        assert(parse_string_tail(s, i, c, 2) == Some((seq![c] + rest, (2 + m) as nat)));
    } else {
        assert(e == seq![c]);
        assert(esc_char(c)[0] == c);
        assert(s[i + 0int] == esc_char(c)[0]);
        assert(s[i as int] == c);
        assert(s[i as int] != '"' && s[i as int] != '\\');
        assert(!((s[i as int] as u32) < 0x20));
        assert(parse_string_tail(s, i, c, 1) == Some((seq![c] + rest, (1 + m) as nat)));
    }
}

/// The characters of a single `\u` escape, read back as the escaped
/// character's scalar value.
#[verifier::rlimit(100)]
proof fn lemma_esc_u_single_chars(c: char, s: Seq<char>, i: nat)
    requires
        c != '"' && c != '\\',
        (c as u32) != 0x0a && (c as u32) != 0x0d && (c as u32) != 0x09,
        !(0x20 <= (c as u32) && (c as u32) < 0x80),
        (c as u32) < 0x10000,
        i + 6 <= s.len(),
        forall|k: int| 0 <= k < esc_char(c).len() ==> s[i + k] == #[trigger] esc_char(c)[k],
    ensures
        s[i as int] == '\\',
        s[i as int + 1] == 'u',
        hex_val(s[i as int + 2]) >= 0,
        hex_val(s[i as int + 3]) >= 0,
        hex_val(s[i as int + 4]) >= 0,
        hex_val(s[i as int + 5]) >= 0,
        hex_val(s[i as int + 2]) * 0x1000 + hex_val(s[i as int + 3]) * 0x100 + hex_val(
            s[i as int + 4],
        ) * 0x10 + hex_val(s[i as int + 5]) == c as u32,
{
    let u = c as u32;
    let e = esc_char(c);
    assert(e == seq!['\\', 'u'] + hex4(u as int));
    assert(e[0] == '\\' && e[1] == 'u');
    assert(e[2] == hex4(u as int)[0] && e[3] == hex4(u as int)[1] && e[4] == hex4(u as int)[2]
        && e[5] == hex4(u as int)[3]);
    assert(s[i + 0int] == '\\' && s[i + 1int] == 'u');
    assert(s[i + 2int] == hex4(u as int)[0]);
    assert(s[i + 3int] == hex4(u as int)[1]);
    assert(s[i + 4int] == hex4(u as int)[2]);
    assert(s[i + 5int] == hex4(u as int)[3]);
    lemma_hex4_value(u as int);
}

/// Parsing recovers a single `\u` escape followed by a parsed rest.
#[verifier::rlimit(100)]
proof fn lemma_parse_esc_u_single(c: char, rest: Seq<char>, m: nat, s: Seq<char>, i: nat)
    requires
        c != '"' && c != '\\',
        (c as u32) != 0x0a && (c as u32) != 0x0d && (c as u32) != 0x09,
        !(0x20 <= (c as u32) && (c as u32) < 0x80),
        (c as u32) < 0x10000,
        i + 6 <= s.len(),
        forall|k: int| 0 <= k < esc_char(c).len() ==> s[i + k] == #[trigger] esc_char(c)[k],
        parse_string_body(s, i + 6) == Some((rest, m)),
    ensures
        parse_string_body(s, i) == Some((seq![c] + rest, (6 + m) as nat)),
{
    let u = c as u32;
    vstd::utf8::char_is_scalar(c);
    vstd::utf8::char_u32_cast(c, u);
    lemma_esc_u_single_chars(c, s, i);
    assert(!(0xd800 <= u && u < 0xe000));
    assert(((u as u32) as char) == c);
    assert(parse_string_tail(s, i, c, 6) == Some((seq![c] + rest, (6 + m) as nat)));
}

/// The characters of a surrogate-pair escape, read back as the escaped
/// character's scalar value.
#[verifier::rlimit(100)]
proof fn lemma_esc_u_pair_chars(c: char, s: Seq<char>, i: nat)
    requires
        (c as u32) >= 0x10000,
        (c as u32) <= 0x10ffff,
        i + 12 <= s.len(),
        forall|k: int| 0 <= k < esc_char(c).len() ==> s[i + k] == #[trigger] esc_char(c)[k],
    ensures
        s[i as int] == '\\',
        s[i as int + 1] == 'u',
        s[i as int + 6] == '\\',
        s[i as int + 7] == 'u',
        hex_val(s[i as int + 2]) >= 0,
        hex_val(s[i as int + 3]) >= 0,
        hex_val(s[i as int + 4]) >= 0,
        hex_val(s[i as int + 5]) >= 0,
        hex_val(s[i as int + 8]) >= 0,
        hex_val(s[i as int + 9]) >= 0,
        hex_val(s[i as int + 10]) >= 0,
        hex_val(s[i as int + 11]) >= 0,
        hex_val(s[i as int + 2]) * 0x1000 + hex_val(s[i as int + 3]) * 0x100 + hex_val(
            s[i as int + 4],
        ) * 0x10 + hex_val(s[i as int + 5]) == 0xd800 + (((c as u32) - 0x10000) as int) / 0x400,
        hex_val(s[i as int + 8]) * 0x1000 + hex_val(s[i as int + 9]) * 0x100 + hex_val(
            s[i as int + 10],
        ) * 0x10 + hex_val(s[i as int + 11]) == 0xdc00 + (((c as u32) - 0x10000) as int) % 0x400,
{
    let u = c as u32;
    let hi = 0xd800 + ((u - 0x10000) as int) / 0x400;
    let lo = 0xdc00 + ((u - 0x10000) as int) % 0x400;
    assert(((u - 0x10000) as int) / 0x400 <= 0x3ff) by {
        assert((u - 0x10000) as int <= 0xfffff);
    }
    assert(((u - 0x10000) as int) / 0x400 >= 0);
    assert(0 <= ((u - 0x10000) as int) % 0x400 < 0x400);
    let e = esc_char(c);
    assert(e == seq!['\\', 'u'] + hex4(hi) + seq!['\\', 'u'] + hex4(lo));
    assert(e[0] == '\\' && e[1] == 'u' && e[6] == '\\' && e[7] == 'u');
    assert(e[2] == hex4(hi)[0] && e[3] == hex4(hi)[1] && e[4] == hex4(hi)[2] && e[5] == hex4(
        hi,
    )[3]);
    assert(e[8] == hex4(lo)[0] && e[9] == hex4(lo)[1] && e[10] == hex4(lo)[2] && e[11] == hex4(
        lo,
    )[3]);
    assert(s[i + 0int] == '\\' && s[i + 1int] == 'u' && s[i + 6int] == '\\' && s[i + 7int] == 'u');
    assert(s[i + 2int] == hex4(hi)[0] && s[i + 3int] == hex4(hi)[1] && s[i + 4int] == hex4(hi)[2]
        && s[i + 5int] == hex4(hi)[3]);
    assert(s[i + 8int] == hex4(lo)[0] && s[i + 9int] == hex4(lo)[1] && s[i + 10int] == hex4(lo)[2]
        && s[i + 11int] == hex4(lo)[3]);
    lemma_hex4_value(hi);
    lemma_hex4_value(lo);
}

/// Parsing recovers a surrogate-pair escape followed by a parsed rest.
#[verifier::rlimit(100)]
proof fn lemma_parse_esc_u_pair(c: char, rest: Seq<char>, m: nat, s: Seq<char>, i: nat)
    requires
        (c as u32) >= 0x10000,
        i + 12 <= s.len(),
        forall|k: int| 0 <= k < esc_char(c).len() ==> s[i + k] == #[trigger] esc_char(c)[k],
        parse_string_body(s, i + 12) == Some((rest, m)),
    ensures
        parse_string_body(s, i) == Some((seq![c] + rest, (12 + m) as nat)),
{
    let u = c as u32;
    vstd::utf8::char_is_scalar(c);
    vstd::utf8::char_u32_cast(c, u);
    lemma_esc_u_pair_chars(c, s, i);
    let hi = 0xd800 + ((u - 0x10000) as int) / 0x400;
    let lo = 0xdc00 + ((u - 0x10000) as int) % 0x400;
    assert(0xd800 <= hi && hi < 0xdc00) by {
        assert(((u - 0x10000) as int) / 0x400 <= 0x3ff) by {
            assert((u - 0x10000) as int <= 0xfffff);
        }
        assert(((u - 0x10000) as int) / 0x400 >= 0);
    }
    assert(0xdc00 <= lo && lo < 0xe000);
    assert(0x10000 + (hi - 0xd800) * 0x400 + (lo - 0xdc00) == u) by {
        vstd::arithmetic::div_mod::lemma_fundamental_div_mod((u - 0x10000) as int, 0x400);
    }
    assert(((u as u32) as char) == c);
    assert(parse_string_tail(s, i, c, 12) == Some((seq![c] + rest, (12 + m) as nat)));
}

/// Parsing recovers a serialized string literal.
#[verifier::rlimit(100)]
proof fn lemma_parse_ser_string(cs: Seq<char>, s: Seq<char>, i: nat)
    requires
        window(s, i, ser_string(cs)),
    ensures
        parse_string_body(s, i + 1) == Some((cs, (ser_str_body(cs).len() + 1) as nat)),
        s[i as int] == '"',
{
    let body = ser_str_body(cs);
    lemma_window_index(s, i, ser_string(cs));
    assert(ser_string(cs)[0] == '"');
    assert(s[i + 0int] == ser_string(cs)[0]);
    assert(s.subrange((i + 1) as int, (i + 1 + body.len()) as int) =~= body) by {
        assert forall|k: int| 0 <= k < body.len() implies s[i + 1 + k] == body[k] by {
            assert(ser_string(cs)[1 + k] == body[k]);
            assert(s[i + (1 + k)] == ser_string(cs)[1 + k]);
        }
    }
    assert(ser_string(cs)[1 + body.len() as int] == '"');
    assert(s[(i + 1 + body.len()) as int] == '"');
    lemma_parse_ser_str_body(cs, s, (i + 1) as nat);
}

/// Parsing recovers a serialized value, wherever it stands before a comma,
/// a closing character or the end of the text.
#[verifier::rlimit(100)]
pub proof fn lemma_parse_ser_value(v: SpecJson, s: Seq<char>, i: nat)
    requires
        wf_json(v),
        window(s, i, ser_value(v)),
        delim_at(s, (i + ser_value(v).len()) as nat),
    ensures
        parse_value(s, i) == Some((v, ser_value(v).len() as nat)),
    decreases v, 2nat,
{
    let w = ser_value(v);
    lemma_window_index(s, i, w);
    lemma_ser_first(v);
    match v {
        SpecJson::Null => {
            assert(s[i + 0int] == 'n' && s[i + 1int] == 'u' && s[i + 2int] == 'l' && s[i + 3int]
                == 'l');
        },
        SpecJson::Bool(b) => {
            if b {
                assert(s[i + 0int] == 't' && s[i + 1int] == 'r' && s[i + 2int] == 'u' && s[i
                    + 3int] == 'e');
            } else {
                assert(s[i + 0int] == 'f' && s[i + 1int] == 'a' && s[i + 2int] == 'l' && s[i
                    + 3int] == 's' && s[i + 4int] == 'e');
            }
        },
        SpecJson::Int(n) => {
            lemma_parse_ser_int(n, s, i);
            assert(s[i + 0int] == w[0]);
            if n < 0 {
                assert(w[0] == '-');
            } else {
                lemma_dec_digits_range(n);
                assert(w[0] == dec_char(dec_digits(n)[0]));
                assert(is_dec_digit(w[0]));
            }
        },
        SpecJson::Str(cs) => {
            lemma_parse_ser_string(cs, s, i);
        },
        SpecJson::Arr(elems) => {
            assert(s[i + 0int] == '[');
            if elems.len() == 0 {
                assert(w == seq!['['] + ser_items(elems) + seq![']']);
                assert(w[1] == ']');
                assert(s[i + 1int] == ']');
                assert(v == SpecJson::Arr(Seq::<SpecJson>::empty())) by {
                    assert(elems =~= Seq::<SpecJson>::empty());
                }
            } else {
                assert(w =~= seq!['['] + (ser_items(elems) + seq![']']));
                lemma_window_split(s, i, seq!['['], ser_items(elems) + seq![']']);
                lemma_ser_items_first(elems);
                lemma_window_index(s, (i + 1) as nat, ser_items(elems) + seq![']']);
                assert((ser_items(elems) + seq![']'])[0] == ser_value(elems[0])[0]);
                assert(s[i + 1int] == ser_value(elems[0])[0]);
                lemma_ser_first(elems[0]);
                assert(s[i + 1int] != ']');
                lemma_parse_ser_items(elems, s, (i + 1) as nat);
            }
        },
        SpecJson::Obj(fields) => {
            assert(s[i + 0int] == '{');
            if fields.len() == 0 {
                assert(w == seq!['{'] + ser_fields(fields) + seq!['}']);
                assert(w[1] == '}');
                assert(s[i + 1int] == '}');
                assert(v == SpecJson::Obj(Seq::<(Seq<char>, SpecJson)>::empty())) by {
                    assert(fields =~= Seq::<(Seq<char>, SpecJson)>::empty());
                }
            } else {
                assert(w =~= seq!['{'] + (ser_fields(fields) + seq!['}']));
                lemma_window_split(s, i, seq!['{'], ser_fields(fields) + seq!['}']);
                lemma_ser_fields_first(fields);
                lemma_window_index(s, (i + 1) as nat, ser_fields(fields) + seq!['}']);
                assert((ser_fields(fields) + seq!['}'])[0] == '"');
                assert(s[i + 1int] == '"');
                lemma_parse_ser_fields(fields, s, (i + 1) as nat);
            }
        },
    }
}

/// A non-empty element list serializes to text opening with its first
/// value's first character.
proof fn lemma_ser_items_first(elems: Seq<SpecJson>)
    requires
        elems.len() >= 1,
    ensures
        ser_items(elems).len() >= 1,
        ser_items(elems)[0] == ser_value(elems[0])[0],
{
    lemma_ser_first(elems[0]);
}

/// A non-empty field list serializes to text opening with a quote.
proof fn lemma_ser_fields_first(fields: Seq<(Seq<char>, SpecJson)>)
    requires
        fields.len() >= 1,
    ensures
        ser_fields(fields).len() >= 1,
        ser_fields(fields)[0] == '"',
{
    assert(ser_string(fields[0].0)[0] == '"');
}

/// Parsing recovers serialized elements up to their closing bracket.
#[verifier::rlimit(100)]
pub proof fn lemma_parse_ser_items(elems: Seq<SpecJson>, s: Seq<char>, i: nat)
    requires
        wf_json_seq(elems),
        elems.len() >= 1,
        window(s, i, ser_items(elems) + seq![']']),
    ensures
        parse_items(s, i) == Some((elems, (ser_items(elems).len() + 1) as nat)),
    decreases elems, 3nat,
{
    let e0 = elems[0];
    let w0 = ser_value(e0);
    let all = ser_items(elems) + seq![']'];
    assert(wf_json(e0) && wf_json_seq(elems.skip(1)));
    if elems.len() == 1 {
        assert(ser_items(elems) == w0);
        lemma_window_split(s, i, w0, seq![']']);
        lemma_window_index(s, (i + w0.len()) as nat, seq![']']);
        assert(seq![']'][0] == ']');
        let jj: nat = (i + w0.len()) as nat;
        assert(s[jj + 0int] == seq![']'][0]);
        assert(s[(i + w0.len()) as int] == ']');
        lemma_parse_ser_value(e0, s, i);
        assert(seq![e0] =~= elems);
        assert(parse_items(s, i) == Some((seq![e0], (w0.len() + 1) as nat)));
    } else {
        let rest = elems.skip(1);
        let tailw = seq![','] + ser_items(rest) + seq![']'];
        assert(all =~= w0 + tailw);
        lemma_window_split(s, i, w0, tailw);
        lemma_window_index(s, (i + w0.len()) as nat, tailw);
        assert(tailw[0] == ',');
        assert(s[(i + w0.len()) as int + 0] == tailw[0]);
        assert(s[(i + w0.len()) as int] == ',');
        lemma_parse_ser_value(e0, s, i);
        assert(tailw =~= seq![','] + (ser_items(rest) + seq![']']));
        lemma_window_split(s, (i + w0.len()) as nat, seq![','], ser_items(rest) + seq![']']);
        lemma_parse_ser_items(rest, s, (i + w0.len() + 1) as nat);
        assert(seq![e0] + rest =~= elems);
        assert(parse_items(s, i) == Some(
            (seq![e0] + rest, (w0.len() + 1 + ser_items(rest).len() + 1) as nat),
        ));
        assert(ser_items(elems).len() == w0.len() + 1 + ser_items(rest).len());
    }
}

/// Parsing recovers serialized fields up to their closing brace.
pub proof fn lemma_parse_ser_fields(fields: Seq<(Seq<char>, SpecJson)>, s: Seq<char>, i: nat)
    requires
        wf_json_fields(fields),
        fields.len() >= 1,
        window(s, i, ser_fields(fields) + seq!['}']),
    ensures
        parse_fields(s, i) == Some((fields, (ser_fields(fields).len() + 1) as nat)),
    decreases fields, 4nat,
{
    if fields.len() == 1 {
        lemma_parse_ser_fields_one(fields, s, i);
    } else {
        lemma_parse_ser_fields_many(fields, s, i);
    }
}

/// The single-field case of `lemma_parse_ser_fields`.
#[verifier::rlimit(100)]
proof fn lemma_parse_ser_fields_one(fields: Seq<(Seq<char>, SpecJson)>, s: Seq<char>, i: nat)
    requires
        wf_json_fields(fields),
        fields.len() == 1,
        window(s, i, ser_fields(fields) + seq!['}']),
    ensures
        parse_fields(s, i) == Some((fields, (ser_fields(fields).len() + 1) as nat)),
    decreases fields, 3nat,
{
    let key = fields[0].0;
    let v0 = fields[0].1;
    let kw = ser_string(key);
    let vw = ser_value(v0);
    let all = ser_fields(fields) + seq!['}'];
    assert(wf_json(v0));
    let ck: nat = (ser_str_body(key).len() + 1) as nat;
    assert(kw.len() == ck + 1);
    assert(ser_fields(fields) == kw + seq![':'] + vw);
    assert(all =~= kw + (seq![':'] + vw + seq!['}']));
    lemma_window_split(s, i, kw, seq![':'] + vw + seq!['}']);
    lemma_parse_ser_string(key, s, i);
    let j: nat = (i + kw.len()) as nat;
    lemma_window_index(s, j, seq![':'] + vw + seq!['}']);
    assert((seq![':'] + vw + seq!['}'])[0] == ':');
    assert(s[j as int + 0] == ':');
    assert(s[j as int] == ':');
    assert(seq![':'] + vw + seq!['}'] =~= seq![':'] + (vw + seq!['}']));
    lemma_window_split(s, j, seq![':'], vw + seq!['}']);
    lemma_window_split(s, (j + 1) as nat, vw, seq!['}']);
    lemma_window_index(s, (j + 1 + vw.len()) as nat, seq!['}']);
    assert(seq!['}'][0] == '}');
    let jj: nat = (j + 1 + vw.len()) as nat;
    assert(s[jj + 0int] == seq!['}'][0]);
    assert(s[(j + 1 + vw.len()) as int] == '}');
    lemma_parse_ser_value(v0, s, (j + 1) as nat);
    assert(seq![(key, v0)] =~= fields);
    assert(i + 1 + ck == j);
    assert(parse_fields(s, i) == Some((seq![(key, v0)], (ck + 2 + vw.len() + 1) as nat)));
    assert(ser_fields(fields).len() == kw.len() + 1 + vw.len());
}

/// The several-fields case of `lemma_parse_ser_fields`.
#[verifier::rlimit(100)]
#[verifier::spinoff_prover]
proof fn lemma_parse_ser_fields_many(fields: Seq<(Seq<char>, SpecJson)>, s: Seq<char>, i: nat)
    requires
        wf_json_fields(fields),
        fields.len() >= 2,
        window(s, i, ser_fields(fields) + seq!['}']),
    ensures
        parse_fields(s, i) == Some((fields, (ser_fields(fields).len() + 1) as nat)),
    decreases fields, 3nat,
{
    let key = fields[0].0;
    let v0 = fields[0].1;
    let kw = ser_string(key);
    let vw = ser_value(v0);
    let all = ser_fields(fields) + seq!['}'];
    assert(wf_json(v0) && wf_json_fields(fields.skip(1)));
    let ck: nat = (ser_str_body(key).len() + 1) as nat;
    assert(kw.len() == ck + 1);
    let rest = fields.skip(1);
    assert(ser_fields(fields) == kw + seq![':'] + vw + seq![','] + ser_fields(rest));
    let tailw = seq![':'] + vw + seq![','] + ser_fields(rest) + seq!['}'];
    assert(all =~= kw + tailw);
    lemma_window_split(s, i, kw, tailw);
    lemma_parse_ser_string(key, s, i);
    let j: nat = (i + kw.len()) as nat;
    lemma_window_index(s, j, tailw);
    assert(tailw[0] == ':');
    assert(s[j as int + 0] == ':');
    assert(s[j as int] == ':');
    assert(tailw =~= seq![':'] + (vw + (seq![','] + ser_fields(rest) + seq!['}'])));
    lemma_window_split(s, j, seq![':'], vw + (seq![','] + ser_fields(rest) + seq!['}']));
    lemma_window_split(s, (j + 1) as nat, vw, seq![','] + ser_fields(rest) + seq!['}']);
    let e: nat = (j + 1 + vw.len()) as nat;
    lemma_window_index(s, e, seq![','] + ser_fields(rest) + seq!['}']);
    assert((seq![','] + ser_fields(rest) + seq!['}'])[0] == ',');
    assert(s[e as int + 0] == ',');
    assert(s[e as int] == ',');
    lemma_parse_ser_value(v0, s, (j + 1) as nat);
    assert(seq![','] + ser_fields(rest) + seq!['}'] =~= seq![','] + (ser_fields(rest)
        + seq!['}']));
    lemma_window_split(s, e, seq![','], ser_fields(rest) + seq!['}']);
    lemma_parse_ser_fields(rest, s, (e + 1) as nat);
    assert(seq![(key, v0)] + rest =~= fields);
    assert(i + 1 + ck == j);
    assert(parse_fields(s, i) == Some(
        (seq![(key, v0)] + rest, (ck + 2 + vw.len() + 1 + ser_fields(rest).len() + 1) as nat),
    ));
    assert(ser_fields(fields).len() == kw.len() + 1 + vw.len() + 1 + ser_fields(rest).len());
}

/// Round trip: parsing the canonical text of any well-formed value yields
/// exactly that value.
pub proof fn lemma_parse_ser_json(v: SpecJson)
    requires
        wf_json(v),
    ensures
        parse_json(ser_value(v)) == Some(v),
{
    let s = ser_value(v);
    assert(s.subrange(0, s.len() as int) =~= s);
    lemma_parse_ser_value(v, s, 0);
}

/// The deep view of an executable value is always well formed: its
/// integers came from 64-bit words.
pub proof fn lemma_deep_view_wf(v: &JsonValue)
    ensures
        wf_json(v.deep_view()),
    decreases v,
{
    match v {
        JsonValue::Arr(items) => {
            lemma_deep_view_seq_wf(items@);
        },
        JsonValue::Obj(fields) => {
            lemma_deep_view_fields_wf(fields@);
        },
        _ => {},
    }
}

/// The deep views of a vector of values are all well formed.
pub proof fn lemma_deep_view_seq_wf(items: Seq<JsonValue>)
    ensures
        wf_json_seq(deep_view_seq(items)),
    decreases items, 1nat,
{
    lemma_deep_view_seq_len(items);
    if items.len() > 0 {
        lemma_deep_view_seq_index(items, 0);
        lemma_deep_view_wf(&items[0]);
        lemma_deep_view_seq_wf(items.skip(1));
        assert(deep_view_seq(items).skip(1) =~= deep_view_seq(items.skip(1))) by {
            lemma_deep_view_seq_len(items.skip(1));
            assert forall|i: int| 0 <= i < items.len() - 1 implies deep_view_seq(items).skip(1)[i]
                == deep_view_seq(items.skip(1))[i] by {
                lemma_deep_view_seq_index(items, i + 1);
                lemma_deep_view_seq_index(items.skip(1), i);
            }
        }
    }
}

/// The deep views of a vector of fields are all well formed.
pub proof fn lemma_deep_view_fields_wf(fields: Seq<(String, JsonValue)>)
    ensures
        wf_json_fields(deep_view_fields(fields)),
    decreases fields, 1nat,
{
    lemma_deep_view_fields_len(fields);
    if fields.len() > 0 {
        lemma_deep_view_fields_index(fields, 0);
        lemma_deep_view_wf(&fields[0].1);
        lemma_deep_view_fields_wf(fields.skip(1));
        assert(deep_view_fields(fields).skip(1) =~= deep_view_fields(fields.skip(1))) by {
            lemma_deep_view_fields_len(fields.skip(1));
            assert forall|i: int|
                0 <= i < fields.len() - 1 implies deep_view_fields(fields).skip(1)[i]
                == deep_view_fields(fields.skip(1))[i] by {
                lemma_deep_view_fields_index(fields, i + 1);
                lemma_deep_view_fields_index(fields.skip(1), i);
            }
        }
    }
}

/// Appending field views one at a time agrees with `deep_view_fields`.
pub proof fn lemma_deep_view_fields_push(fields: Seq<(String, JsonValue)>, x: (String, JsonValue))
    ensures
        deep_view_fields(fields.push(x)) =~= deep_view_fields(fields).push(
            (x.0@, x.1.deep_view()),
        ),
{
    lemma_deep_view_fields_len(fields);
    lemma_deep_view_fields_len(fields.push(x));
    assert forall|i: int|
        0 <= i < fields.len() + 1 implies deep_view_fields(fields.push(x))[i] == deep_view_fields(
        fields,
    ).push((x.0@, x.1.deep_view()))[i] by {
        lemma_deep_view_fields_index(fields.push(x), i);
        if i < fields.len() {
            lemma_deep_view_fields_index(fields, i);
        }
    }
}

/// Serializing two non-empty field lists one after the other joins them
/// with a comma.
pub proof fn lemma_ser_fields_concat(f1: Seq<(Seq<char>, SpecJson)>, f2: Seq<(Seq<char>, SpecJson)>)
    requires
        f1.len() >= 1,
        f2.len() >= 1,
    ensures
        ser_fields(f1 + f2) =~= ser_fields(f1) + seq![','] + ser_fields(f2),
    decreases f1.len(),
{
    let all = f1 + f2;
    assert(all[0] == f1[0]);
    if f1.len() == 1 {
        assert(all.skip(1) =~= f2);
        assert(all.len() >= 2);
    } else {
        lemma_ser_fields_concat(f1.skip(1), f2);
        assert(all.skip(1) =~= f1.skip(1) + f2);
    }
}

/// Every character an escape emits is ASCII.
#[verifier::rlimit(100)]
pub proof fn lemma_esc_ascii(c: char)
    ensures
        crate::strutil::all_ascii_chars(esc_char(c)),
{
    let u = c as u32;
    let e = esc_char(c);
    vstd::utf8::char_is_scalar(c);
    if c == '"' || c == '\\' || u == 0x0a || u == 0x0d || u == 0x09 {
        assert forall|i: int| 0 <= i < e.len() implies crate::strutil::is_ascii_char(
            #[trigger] e[i],
        ) by {}
    } else if 0x20 <= u && u < 0x80 {
        assert(e == seq![c]);
        assert(crate::strutil::is_ascii_char(e[0]));
    } else if u < 0x10000 {
        assert(e == seq!['\\', 'u'] + hex4(u as int));
        lemma_hex4_ascii(u as int);
        assert forall|i: int| 0 <= i < e.len() implies crate::strutil::is_ascii_char(
            #[trigger] e[i],
        ) by {
            if i >= 2 {
                assert(e[i] == hex4(u as int)[i - 2]);
            }
        }
    } else {
        let hi = 0xd800 + ((u - 0x10000) as int) / 0x400;
        let lo = 0xdc00 + ((u - 0x10000) as int) % 0x400;
        assert(((u - 0x10000) as int) / 0x400 <= 0x3ff) by {
            assert((u - 0x10000) as int <= 0xfffff);
        }
        assert(e == seq!['\\', 'u'] + hex4(hi) + seq!['\\', 'u'] + hex4(lo));
        lemma_hex4_ascii(hi);
        lemma_hex4_ascii(lo);
        assert forall|i: int| 0 <= i < e.len() implies crate::strutil::is_ascii_char(
            #[trigger] e[i],
        ) by {
            if 2 <= i < 6 {
                assert(e[i] == hex4(hi)[i - 2]);
            } else if i >= 8 {
                assert(e[i] == hex4(lo)[i - 8]);
            }
        }
    }
}

/// The four hexadecimal characters of a value below 0x10000 are ASCII.
proof fn lemma_hex4_ascii(u: int)
    requires
        0 <= u < 0x10000,
    ensures
        forall|i: int| 0 <= i < 4 ==> crate::strutil::is_ascii_char(#[trigger] hex4(u)[i]),
{
    assert(crate::strutil::is_ascii_char(hex4(u)[0]));
    assert(crate::strutil::is_ascii_char(hex4(u)[1]));
    assert(crate::strutil::is_ascii_char(hex4(u)[2]));
    assert(crate::strutil::is_ascii_char(hex4(u)[3]));
}

/// Every character of a serialized string body is ASCII.
pub proof fn lemma_ser_str_body_ascii(cs: Seq<char>)
    ensures
        crate::strutil::all_ascii_chars(ser_str_body(cs)),
    decreases cs.len(),
{
    if cs.len() > 0 {
        lemma_esc_ascii(cs[0]);
        lemma_ser_str_body_ascii(cs.skip(1));
        let e = esc_char(cs[0]);
        let rest = ser_str_body(cs.skip(1));
        assert forall|i: int| 0 <= i < ser_str_body(cs).len() implies crate::strutil::is_ascii_char(
            #[trigger] ser_str_body(cs)[i],
        ) by {
            if i < e.len() {
                assert(ser_str_body(cs)[i] == e[i]);
            } else {
                assert(ser_str_body(cs)[i] == rest[i - e.len()]);
            }
        }
    }
}

/// Every character of a serialized value is ASCII.
pub proof fn lemma_ser_ascii(v: SpecJson)
    ensures
        crate::strutil::all_ascii_chars(ser_value(v)),
    decreases v, 0nat,
{
    match v {
        SpecJson::Null => {
            assert forall|i: int|
                0 <= i < ser_value(v).len() implies crate::strutil::is_ascii_char(
                #[trigger] ser_value(v)[i],
            ) by {}
        },
        SpecJson::Bool(b) => {
            assert forall|i: int|
                0 <= i < ser_value(v).len() implies crate::strutil::is_ascii_char(
                #[trigger] ser_value(v)[i],
            ) by {}
        },
        SpecJson::Int(n) => {
            let m = if n < 0 { -n } else { n };
            lemma_dec_digits_range(m);
            assert forall|i: int|
                0 <= i < ser_value(v).len() implies crate::strutil::is_ascii_char(
                #[trigger] ser_value(v)[i],
            ) by {
                let ds = dec_digits(m);
                if n < 0 {
                    if i >= 1 {
                        assert(ser_value(v)[i] == dec_chars(ds)[i - 1]);
                        assert(0 <= ds[i - 1] < 10);
                    }
                } else {
                    assert(ser_value(v)[i] == dec_chars(ds)[i]);
                    assert(0 <= ds[i] < 10);
                }
            }
        },
        SpecJson::Str(cs) => {
            lemma_ser_str_body_ascii(cs);
            assert forall|i: int|
                0 <= i < ser_value(v).len() implies crate::strutil::is_ascii_char(
                #[trigger] ser_value(v)[i],
            ) by {
                let body = ser_str_body(cs);
                if 1 <= i < 1 + body.len() {
                    assert(ser_value(v)[i] == body[i - 1]);
                }
            }
        },
        SpecJson::Arr(elems) => {
            lemma_ser_items_ascii(elems);
            assert forall|i: int|
                0 <= i < ser_value(v).len() implies crate::strutil::is_ascii_char(
                #[trigger] ser_value(v)[i],
            ) by {
                let items = ser_items(elems);
                if 1 <= i < 1 + items.len() {
                    assert(ser_value(v)[i] == items[i - 1]);
                }
            }
        },
        SpecJson::Obj(fields) => {
            lemma_ser_fields_ascii(fields);
            assert forall|i: int|
                0 <= i < ser_value(v).len() implies crate::strutil::is_ascii_char(
                #[trigger] ser_value(v)[i],
            ) by {
                let fs = ser_fields(fields);
                if 1 <= i < 1 + fs.len() {
                    assert(ser_value(v)[i] == fs[i - 1]);
                }
            }
        },
    }
}

/// Every character of serialized elements is ASCII.
proof fn lemma_ser_items_ascii(elems: Seq<SpecJson>)
    ensures
        crate::strutil::all_ascii_chars(ser_items(elems)),
    decreases elems, 1nat,
{
    if elems.len() == 0 {
    } else if elems.len() == 1 {
        lemma_ser_ascii(elems[0]);
    } else {
        lemma_ser_ascii(elems[0]);
        lemma_ser_items_ascii(elems.skip(1));
        let w0 = ser_value(elems[0]);
        let rest = ser_items(elems.skip(1));
        assert forall|i: int| 0 <= i < ser_items(elems).len() implies crate::strutil::is_ascii_char(
            #[trigger] ser_items(elems)[i],
        ) by {
            if i < w0.len() {
                assert(ser_items(elems)[i] == w0[i]);
            } else if i > w0.len() {
                assert(ser_items(elems)[i] == rest[i - w0.len() - 1]);
            }
        }
    }
}

/// Every character of serialized fields is ASCII.
proof fn lemma_ser_fields_ascii(fields: Seq<(Seq<char>, SpecJson)>)
    ensures
        crate::strutil::all_ascii_chars(ser_fields(fields)),
    decreases fields, 1nat,
{
    if fields.len() == 0 {
    } else {
        lemma_ser_ascii(fields[0].1);
        lemma_ser_str_body_ascii(fields[0].0);
        let kw = ser_string(fields[0].0);
        let vw = ser_value(fields[0].1);
        assert(crate::strutil::all_ascii_chars(kw)) by {
            let body = ser_str_body(fields[0].0);
            assert forall|i: int| 0 <= i < kw.len() implies crate::strutil::is_ascii_char(
                #[trigger] kw[i],
            ) by {
                if 1 <= i < 1 + body.len() {
                    assert(kw[i] == body[i - 1]);
                }
            }
        }
        if fields.len() == 1 {
            assert forall|i: int|
                0 <= i < ser_fields(fields).len() implies crate::strutil::is_ascii_char(
                #[trigger] ser_fields(fields)[i],
            ) by {
                if i < kw.len() {
                    assert(ser_fields(fields)[i] == kw[i]);
                } else if i > kw.len() {
                    assert(ser_fields(fields)[i] == vw[i - kw.len() - 1]);
                }
            }
        } else {
            lemma_ser_fields_ascii(fields.skip(1));
            let rest = ser_fields(fields.skip(1));
            assert forall|i: int|
                0 <= i < ser_fields(fields).len() implies crate::strutil::is_ascii_char(
                #[trigger] ser_fields(fields)[i],
            ) by {
                if i < kw.len() {
                    assert(ser_fields(fields)[i] == kw[i]);
                } else if kw.len() < i < kw.len() + 1 + vw.len() {
                    assert(ser_fields(fields)[i] == vw[i - kw.len() - 1]);
                } else if i > kw.len() + 1 + vw.len() {
                    assert(ser_fields(fields)[i] == rest[i - kw.len() - vw.len() - 2]);
                }
            }
        }
    }
}

} // verus!
