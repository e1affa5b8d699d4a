use vstd::prelude::*;

use crate::chars::chars_of;

verus! {

/// Whether `c` is one of the ASCII digits `0`..`9`.
pub open spec fn is_digit(c: char) -> bool {
    '0' <= c <= '9'
}

/// The value of a single decimal digit.
pub open spec fn digit_value(c: char) -> int {
    (c as u32) as int - ('0' as u32) as int
}

/// Whether `s` is a non-empty run of decimal digits.
pub open spec fn is_decimal(s: Seq<char>) -> bool {
    s.len() > 0 && forall|i: int| 0 <= i < s.len() ==> #[trigger] is_digit(s[i])
}

/// The magnitude written by the decimal digits `s`, most significant first.
pub open spec fn decimal_value(s: Seq<char>) -> nat
    decreases s.len(),
{
    if s.len() == 0 {
        0
    } else {
        (10 * decimal_value(s.drop_last()) + digit_value(s.last())) as nat
    }
}

/// An integer literal whose magnitude fits in 64 bits.
#[derive(Debug, Clone, Copy, PartialEq, Eq)]
pub struct Number(pub u64);

/// An integer literal whose magnitude needs up to 128 bits.
#[derive(Debug, Clone, Copy, PartialEq, Eq)]
pub struct BigNumber(pub u128);

impl Number {
    /// The magnitude as a signed 64-bit value, if it fits.
    pub fn as_i64(&self) -> (r: Option<i64>)
        ensures
            r == (if self.0 <= i64::MAX as u64 { Some(self.0 as i64) } else { None::<i64> }),
    {
        if self.0 <= i64::MAX as u64 {
            Some(self.0 as i64)
        } else {
            None
        }
    }

    pub fn as_u64(&self) -> (r: u64)
        ensures
            r == self.0,
    {
        self.0
    }
}

impl BigNumber {
    /// The magnitude as an unsigned 64-bit value, if it fits.
    pub fn as_u64(&self) -> (r: Option<u64>)
        ensures
            r == (if self.0 <= u64::MAX as u128 { Some(self.0 as u64) } else { None::<u64> }),
    {
        if self.0 <= u64::MAX as u128 {
            Some(self.0 as u64)
        } else {
            None
        }
    }

    pub fn as_u128(&self) -> (r: u128)
        ensures
            r == self.0,
    {
        self.0
    }
}

/// Reads decimal digit text as a magnitude of at most 128 bits.
pub fn parse_u128(s: &str) -> (r: Option<u128>)
    ensures
        r == (if is_decimal(s@) && decimal_value(s@) <= u128::MAX {
            Some(decimal_value(s@) as u128)
        } else {
            None::<u128>
        }),
{
    let cs = chars_of(s);
    if cs.len() == 0 {
        return None;
    }
    let mut acc: u128 = 0;
    let mut i: usize = 0;
    while i < cs.len()
        invariant
            cs@ == s@,
            0 <= i <= cs@.len(),
            forall|j: int| 0 <= j < i ==> #[trigger] is_digit(cs@[j]),
            acc as nat == decimal_value(cs@.subrange(0, i as int)),
        decreases cs.len() - i,
    {
        let c = cs[i];
        assert(cs@.subrange(0, i + 1).drop_last() == cs@.subrange(0, i as int));
        if !('0' <= c && c <= '9') {
            assert(!is_digit(cs@[i as int]));
            return None;
        }
        let d: u128 = (c as u32 - '0' as u32) as u128;
        if acc > (u128::MAX - d) / 10 {
            proof {
                lemma_decimal_prefix_monotone(cs@, i as int + 1);
            }
            return None;
        }
        acc = acc * 10 + d;
        i += 1;
    }
    assert(cs@.subrange(0, i as int) == cs@);
    Some(acc)
}

/// Reads decimal digit text as a magnitude of at most 64 bits.
pub fn parse_u64(s: &str) -> (r: Option<u64>)
    ensures
        r == (if is_decimal(s@) && decimal_value(s@) <= u64::MAX {
            Some(decimal_value(s@) as u64)
        } else {
            None::<u64>
        }),
{
    match parse_u128(s) {
        Some(v) => {
            if v <= u64::MAX as u128 {
                Some(v as u64)
            } else {
                None
            }
        },
        None => {
            proof {
                if is_decimal(s@) {
                    assert(decimal_value(s@) > u128::MAX);
                }
            }
            None
        },
    }
}

/// A longer run of digits never writes a smaller magnitude than its prefix.
proof fn lemma_decimal_prefix_monotone(s: Seq<char>, k: int)
    requires
        0 <= k <= s.len(),
        forall|j: int| 0 <= j < k ==> #[trigger] is_digit(s[j]),
    ensures
        is_decimal(s) ==> decimal_value(s.subrange(0, k)) <= decimal_value(s),
    decreases s.len(),
{
    if is_decimal(s) && k < s.len() {
        let t = s.drop_last();
        assert(t.subrange(0, k) == s.subrange(0, k));
        if k < t.len() || t.len() > 0 {
            if t.len() > 0 {
                lemma_decimal_prefix_monotone(t, k);
            }
        }
        assert(is_digit(s.last()));
        if t.len() == 0 {
            assert(k == 0);
        }
    }
    if is_decimal(s) && k == s.len() {
        assert(s.subrange(0, k) == s);
    }
}

} // verus!
