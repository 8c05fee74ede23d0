//! A readable timespan format: `1d5h30m20s` and any prefix of it, read
//! into whole seconds.

use vstd::prelude::*;

verus! {

/// The seconds one unit letter stands for, or 0 for any other character.
pub open spec fn unit_seconds(c: char) -> int {
    if c == 'd' {
        86400
    } else if c == 'h' {
        3600
    } else if c == 'm' {
        60
    } else if c == 's' {
        1
    } else {
        0
    }
}

/// An ASCII decimal digit.
pub open spec fn timespan_digit(c: char) -> bool {
    '0' <= c && c <= '9'
}

/// The seconds a timespan text denotes from position `i` with the number
/// `acc` already read, or nothing when the text is not of the form
/// number-unit repeated.
pub open spec fn spec_timespan(s: Seq<char>, i: nat, acc: int, total: int) -> Option<int>
    decreases s.len() - i,
{
    if i >= s.len() {
        if acc == 0 {
            Some(total)
        } else {
            None
        }
    } else {
        let c = s[i as int];
        if timespan_digit(c) {
            spec_timespan(s, i + 1, acc * 10 + (c as int - 48), total)
        } else if unit_seconds(c) > 0 {
            spec_timespan(s, i + 1, 0, total + acc * unit_seconds(c))
        } else {
            None
        }
    }
}

/// Reads a timespan such as `3h30m` into whole seconds. Every number must
/// be followed by a unit letter (`d`, `h`, `m` or `s`), and the total is
/// capped so that the arithmetic stays exact.
#[verifier::loop_isolation(false)]
pub fn timespan(s: &str) -> (r: Option<i64>)
    ensures
        r matches Some(n) ==> spec_timespan(s@, 0, 0, 0) == Some(n as int),
        r is None ==> spec_timespan(s@, 0, 0, 0) is None || (exists|n: int|
            spec_timespan(s@, 0, 0, 0) == Some(n) && n > 0xffffffffffff),
{
    let chars = crate::strutil::chars_of_str(s);
    let mut acc: i64 = 0;
    let mut total: i64 = 0;
    let mut i: usize = 0;
    while i < chars.len()
        invariant
            i <= chars@.len(),
            chars@ == s@,
            0 <= acc <= 0x9ffffffffffff,
            0 <= total <= 0xffffffffffff,
            spec_timespan(s@, 0, 0, 0) == spec_timespan(s@, i as nat, acc as int, total as int),
        decreases chars@.len() - i,
    {
        let c = chars[i];
        if '0' <= c && c <= '9' {
            if acc > 0xffffffffffff {
                proof {
                    lemma_timespan_overflow(s@, i as nat, acc as int, total as int);
                }
                return None;
            }
            acc = acc * 10 + ((c as u32 - 48) as i64);
        } else if c == 'd' || c == 'h' || c == 'm' || c == 's' {
            if acc > 0xffffffffffff {
                proof {
                    lemma_timespan_overflow(s@, i as nat, acc as int, total as int);
                }
                return None;
            }
            let unit: i64 = if c == 'd' {
                86400
            } else if c == 'h' {
                3600
            } else if c == 'm' {
                60
            } else {
                1
            };
            proof {
                assert(unit as int == unit_seconds(s@[i as int]));
                assert(acc * unit <= 0xffffffffffff * 86400 && acc * unit >= 0) by (nonlinear_arith)
                    requires
                        0 <= acc <= 0xffffffffffff,
                        1 <= unit <= 86400,
                ;
            }
            let add = (acc as i128) * (unit as i128);
            if add > (0xffffffffffff - total) as i128 {
                proof {
                    lemma_timespan_past_cap(s@, i as nat + 1, 0, total as int + add as int);
                }
                return None;
            }
            total = total + (add as i64);
            acc = 0;
        } else {
            return None;
        }
        i += 1;
    }
    if acc != 0 {
        return None;
    }
    Some(total)
}

/// A timespan whose pending number is already past the cap denotes
/// nothing small: whatever it denotes stays above the cap.
proof fn lemma_timespan_overflow(s: Seq<char>, i: nat, acc: int, total: int)
    requires
        i <= s.len(),
        0 <= acc,
        0 <= total,
        acc > 0xffffffffffff,
    ensures
        spec_timespan(s, i, acc, total) is None || (exists|n: int|
            spec_timespan(s, i, acc, total) == Some(n) && n > 0xffffffffffff),
    decreases s.len() - i,
{
    if i < s.len() {
        let c = s[i as int];
        if timespan_digit(c) {
            assert(acc * 10 + (c as int - 48) >= acc) by (nonlinear_arith)
                requires
                    acc >= 0,
                    (c as int) >= 48,
            ;
            lemma_timespan_overflow(s, i + 1, acc * 10 + (c as int - 48), total);
        } else if unit_seconds(c) > 0 {
            assert(total + acc * unit_seconds(c) > 0xffffffffffff) by (nonlinear_arith)
                requires
                    acc > 0xffffffffffff,
                    total >= 0,
                    unit_seconds(c) >= 1,
            ;
            lemma_timespan_past_cap(s, i + 1, 0, total + acc * unit_seconds(c));
        }
    }
}

/// A timespan whose running total is already past the cap stays above
/// the cap.
proof fn lemma_timespan_past_cap(s: Seq<char>, i: nat, acc: int, total: int)
    requires
        i <= s.len(),
        0 <= acc,
        total > 0xffffffffffff,
    ensures
        spec_timespan(s, i, acc, total) is None || (exists|n: int|
            spec_timespan(s, i, acc, total) == Some(n) && n > 0xffffffffffff),
    decreases s.len() - i,
{
    if i < s.len() {
        let c = s[i as int];
        if timespan_digit(c) {
            assert(acc * 10 + (c as int - 48) >= 0) by (nonlinear_arith)
                requires
                    acc >= 0,
                    (c as int) >= 48,
            ;
            lemma_timespan_past_cap(s, i + 1, acc * 10 + (c as int - 48), total);
        } else if unit_seconds(c) > 0 {
            assert(total + acc * unit_seconds(c) > 0xffffffffffff) by (nonlinear_arith)
                requires
                    acc >= 0,
                    total > 0xffffffffffff,
                    unit_seconds(c) >= 1,
            ;
            lemma_timespan_past_cap(s, i + 1, 0, total + acc * unit_seconds(c));
        }
    }
}

} // verus!
