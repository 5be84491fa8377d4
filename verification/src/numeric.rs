//! Parsing of non-negative base-10 integer literals, as the standard
//! library's unsigned `parse` accepts them: an optional leading `+`,
//! then one or more ASCII digits, with no surrounding whitespace.

use vstd::prelude::*;

verus! {

/// An ASCII decimal digit.
pub open spec fn is_ascii_digit(b: u8) -> bool {
    0x30 <= b <= 0x39
}

/// The numeric value of a digit byte (0 for non-digits).
pub open spec fn digit_val(b: u8) -> nat {
    if is_ascii_digit(b) {
        (b - 0x30) as nat
    } else {
        0
    }
}

/// `s` is one or more ASCII digits.
pub open spec fn all_digits(s: Seq<u8>) -> bool {
    s.len() > 0 && forall|i: int| 0 <= i < s.len() ==> is_ascii_digit(#[trigger] s[i])
}

/// The base-10 value of a digit string.
pub open spec fn digits_value(s: Seq<u8>) -> nat
    decreases s.len(),
{
    if s.len() == 0 {
        0
    } else {
        digits_value(s.drop_last()) * 10 + digit_val(s.last())
    }
}

/// `s` with an optional leading `+` removed.
pub open spec fn digits_part(s: Seq<u8>) -> Seq<u8> {
    if s.len() >= 1 && s[0] == 0x2b {
        s.skip(1)
    } else {
        s
    }
}

/// The value of `s` read as a non-negative base-10 integer literal no
/// greater than `max`, or `None` when `s` is not such a literal.
pub open spec fn parse_uint_spec(s: Seq<u8>, max: nat) -> Option<nat> {
    let t = digits_part(s);
    if all_digits(t) && digits_value(t) <= max {
        Some(digits_value(t))
    } else {
        None
    }
}

/// A longer digit string never has a smaller value.
proof fn lemma_digits_value_prefix_le(s: Seq<u8>, m: int)
    requires
        0 <= m <= s.len(),
    ensures
        digits_value(s.take(m)) <= digits_value(s),
    decreases s.len() - m,
{
    if m == s.len() {
        assert(s.take(m) =~= s);
    } else {
        lemma_digits_value_prefix_le(s, m + 1);
        assert(s.take(m + 1).drop_last() =~= s.take(m));
        assert(digits_value(s.take(m + 1)) == digits_value(s.take(m)) * 10 + digit_val(
            s.take(m + 1).last(),
        ));
        assert(digits_value(s.take(m)) <= digits_value(s.take(m)) * 10) by (nonlinear_arith);
    }
}

/// Reads `s` as a non-negative base-10 integer literal, rejecting
/// values above `max`.
pub fn parse_uint(s: &[u8], max: u64) -> (r: Option<u64>)
    ensures
        match r {
            Some(v) => parse_uint_spec(s@, max as nat) == Some(v as nat),
            None => parse_uint_spec(s@, max as nat) is None,
        },
{
    let n = s.len();
    let start: usize = if n >= 1 && s[0] == 0x2b {
        1
    } else {
        0
    };
    let ghost t = digits_part(s@);
    proof {
        assert(t =~= s@.skip(start as int));
        assert(forall|j: int| 0 <= j < t.len() ==> #[trigger] t[j] == s@[start + j]);
    }
    if start == n {
        // no digits at all
        assert(t.len() == 0);
        return None;
    }
    let mut acc: u64 = 0;
    let mut i: usize = start;
    proof {
        assert(t.take(0) =~= Seq::<u8>::empty());
    }
    while i < n
        invariant
            start <= i <= n,
            n == s@.len() <= usize::MAX,
            start <= 1,
            t == digits_part(s@),
            t =~= s@.skip(start as int),
            forall|j: int| 0 <= j < t.len() ==> #[trigger] t[j] == s@[start + j],
            forall|j: int| 0 <= j < i - start ==> is_ascii_digit(#[trigger] t[j]),
            acc == digits_value(t.take(i - start)),
            acc <= max,
        decreases n - i,
    {
        let b = s[i];
        if !(0x30 <= b && b <= 0x39) {
            assert(!is_ascii_digit(t[i - start]));
            assert(!all_digits(t));
            return None;
        }
        let d = (b - 0x30) as u64;
        proof {
            assert(t.take(i - start + 1).drop_last() =~= t.take(i - start));
            assert(t.take(i - start + 1).last() == t[i - start] == b);
            assert(digits_value(t.take(i - start + 1)) == acc * 10 + d);
        }
        if d > max || acc > (max - d) / 10 {
            // the value of the digits read so far already exceeds `max`
            proof {
                assert(acc * 10 + d > max) by (nonlinear_arith)
                    requires
                        d <= max ==> acc > (max - d) / 10,
                        acc >= 0 && d >= 0 && max >= 0,
                        d > max || acc > (max - d) / 10,
                ;
                lemma_digits_value_prefix_le(t, i - start + 1);
                assert(digits_value(t) > max);
            }
            return None;
        }
        proof {
            assert(acc * 10 + d <= max) by (nonlinear_arith)
                requires
                    d <= max,
                    acc <= (max - d) / 10,
                    acc >= 0 && d >= 0,
            ;
        }
        acc = acc * 10 + d;
        i = i + 1;
    }
    proof {
        assert(t.take(n - start) =~= t);
        assert(all_digits(t));
    }
    Some(acc)
}

} // verus!
