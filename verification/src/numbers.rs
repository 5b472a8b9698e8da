//! Numbers read from text.
use vstd::prelude::*;

verus! {

/// The value of a digit, decimal or hexadecimal.
pub open spec fn digit_value(c: char) -> Option<int> {
    let u = c as u32;
    if 0x30 <= u <= 0x39 {
        Some(u - 0x30)
    } else if 0x61 <= u <= 0x66 {
        Some(u - 0x61 + 10)
    } else if 0x41 <= u <= 0x46 {
        Some(u - 0x41 + 10)
    } else {
        None
    }
}

/// The value of a run of digits; `None` if it is empty or holds anything else.
pub open spec fn digits_value(s: Seq<char>, radix: int) -> Option<int>
    decreases s.len(),
{
    if s.len() == 0 {
        None
    } else {
        match digit_value(s.last()) {
            Some(d) => if d >= radix {
                None
            } else if s.len() == 1 {
                Some(d)
            } else {
                match digits_value(s.drop_last(), radix) {
                    Some(v) => Some(v * radix + d),
                    None => None,
                }
            },
            None => None,
        }
    }
}

/// A text without the plus sign it may start with.
pub open spec fn unplussed(s: Seq<char>) -> Seq<char> {
    if s.len() > 0 && s[0] == '+' {
        s.drop_first()
    } else {
        s
    }
}

/// The unsigned number that a text stands for: digits, a plus sign before them
/// allowed, in the 64-bit range.
pub open spec fn unsigned_value(s: Seq<char>, radix: int) -> Option<u64> {
    match digits_value(unplussed(s), radix) {
        Some(v) => if v <= u64::MAX {
            Some(v as u64)
        } else {
            None
        },
        None => None,
    }
}

/// The signed decimal number that a text stands for: digits, a sign before them
/// allowed, in the 64-bit range.
pub open spec fn signed_value(s: Seq<char>) -> Option<i64> {
    if s.len() > 0 && s[0] == '-' {
        match digits_value(s.drop_first(), 10) {
            Some(v) => if v <= 0x8000_0000_0000_0000 {
                Some((-v) as i64)
            } else {
                None
            },
            None => None,
        }
    } else {
        match digits_value(unplussed(s), 10) {
            Some(v) => if v <= 0x7FFF_FFFF_FFFF_FFFF {
                Some(v as i64)
            } else {
                None
            },
            None => None,
        }
    }
}

fn digit_of(c: char) -> (r: Option<u64>)
    ensures
        r is Some == digit_value(c) is Some,
        r matches Some(d) ==> d == digit_value(c)->0 && d < 16,
{
    let u: u32 = c as u32;
    if 0x30 <= u && u <= 0x39 {
        Some((u - 0x30) as u64)
    } else if 0x61 <= u && u <= 0x66 {
        Some((u - 0x61 + 10) as u64)
    } else if 0x41 <= u && u <= 0x46 {
        Some((u - 0x41 + 10) as u64)
    } else {
        None
    }
}

/// A longer run of digits stands for no smaller number.
proof fn lemma_prefix(s: Seq<char>, radix: int, n: int)
    requires
        radix >= 1,
        1 <= n <= s.len(),
    ensures
        digits_value(s, radix) matches Some(v) ==> v >= 0 && (digits_value(s.take(n), radix)
            matches Some(u) && 0 <= u <= v),
    decreases s.len(),
{
    if n == s.len() {
        assert(s.take(n) =~= s);
        if s.len() > 1 {
            lemma_prefix(s.drop_last(), radix, 1);
            if let Some(v) = digits_value(s.drop_last(), radix) {
                assert(v * radix >= 0) by (nonlinear_arith)
                    requires
                        v >= 0,
                        radix >= 1,
                ;
            }
        }
    } else {
        lemma_prefix(s.drop_last(), radix, n);
        assert(s.drop_last().take(n) =~= s.take(n));
        if let Some(v) = digits_value(s.drop_last(), radix) {
            assert(v * radix >= v) by (nonlinear_arith)
                requires
                    v >= 0,
                    radix >= 1,
            ;
        }
    }
}

/// The value of the digits from `from` on, if there are any, all are digits and
/// it fits.
fn parse_digits(s: &[char], from: usize, radix: u64) -> (r: Option<u64>)
    requires
        from <= s@.len(),
        radix == 10 || radix == 16,
    ensures
        r == (match digits_value(s@.skip(from as int), radix as int) {
            Some(v) => if v <= u64::MAX {
                Some(v as u64)
            } else {
                None
            },
            None => None,
        }),
{
    let ghost all = s@.skip(from as int);
    if from == s.len() {
        return None;
    }
    let mut v: u64 = 0;
    let mut i: usize = from;
    while i < s.len()
        invariant
            from <= i <= s@.len(),
            all == s@.skip(from as int),
            radix == 10 || radix == 16,
            i == from ==> v == 0,
            i > from ==> digits_value(all.take(i - from), radix as int) == Some(v as int),
        decreases s@.len() - i,
    {
        let ghost upto = all.take(i + 1 - from);
        proof {
            assert(upto.drop_last() =~= all.take(i - from));
            assert(upto.last() == s@[i as int]);
            lemma_prefix(all, radix as int, i + 1 - from);
        }
        match digit_of(s[i]) {
            Some(d) => {
                if d >= radix {
                    return None;
                }
                match v.checked_mul(radix) {
                    Some(w) => match w.checked_add(d) {
                        Some(x) => {
                            v = x;
                        },
                        None => {
                            return None;
                        },
                    },
                    None => {
                        return None;
                    },
                }
            },
            None => {
                return None;
            },
        }
        i = i + 1;
    }
    assert(all.take(i - from) =~= all);
    Some(v)
}

/// Reads an unsigned number in base 10 or 16.
pub fn parse_unsigned(s: &[char], radix: u64) -> (r: Option<u64>)
    requires
        radix == 10 || radix == 16,
    ensures
        r == unsigned_value(s@, radix as int),
{
    if s.len() > 0 && s[0] == '+' {
        assert(s@.skip(1) =~= s@.drop_first());
        parse_digits(s, 1, radix)
    } else {
        assert(s@.skip(0) =~= s@);
        parse_digits(s, 0, radix)
    }
}

/// Reads a signed decimal number.
pub fn parse_signed(s: &[char]) -> (r: Option<i64>)
    ensures
        r == signed_value(s@),
{
    if s.len() > 0 && s[0] == '-' {
        assert(s@.skip(1) =~= s@.drop_first());
        proof {
            if s@.drop_first().len() > 0 {
                lemma_prefix(s@.drop_first(), 10, 1);
            }
        }
        match parse_digits(s, 1, 10) {
            Some(v) => if v < 0x8000_0000_0000_0000 {
                Some(-(v as i64))
            } else if v == 0x8000_0000_0000_0000 {
                Some(i64::MIN)
            } else {
                None
            },
            None => None,
        }
    } else {
        proof {
            if unplussed(s@).len() > 0 {
                lemma_prefix(unplussed(s@), 10, 1);
            }
        }
        match parse_unsigned(s, 10) {
            Some(v) => if v <= 0x7FFF_FFFF_FFFF_FFFF {
                Some(v as i64)
            } else {
                None
            },
            None => None,
        }
    }
}

} // verus!
