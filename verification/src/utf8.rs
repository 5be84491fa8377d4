//! Well-formed UTF-8: a specification of the byte-level grammar and a
//! verified checker.

use vstd::prelude::*;

verus! {

/// A UTF-8 continuation byte (`10xxxxxx`).
pub open spec fn is_cont(b: u8) -> bool {
    0x80 <= b <= 0xbf
}

/// Length of the well-formed scalar-value encoding that starts `s`,
/// or 0 when `s` is empty or starts with a malformed sequence.
///
/// The ranges follow the UTF-8 grammar: overlong encodings, surrogate
/// code points and values above U+10FFFF are all rejected.
pub open spec fn first_char_len(s: Seq<u8>) -> int {
    if s.len() >= 1 && s[0] < 0x80 {
        1
    } else if s.len() >= 2 && 0xc2 <= s[0] <= 0xdf && is_cont(s[1]) {
        2
    } else if s.len() >= 3 && s[0] == 0xe0 && 0xa0 <= s[1] <= 0xbf && is_cont(s[2]) {
        3
    } else if s.len() >= 3 && 0xe1 <= s[0] <= 0xec && is_cont(s[1]) && is_cont(s[2]) {
        3
    } else if s.len() >= 3 && s[0] == 0xed && 0x80 <= s[1] <= 0x9f && is_cont(s[2]) {
        3
    } else if s.len() >= 3 && 0xee <= s[0] <= 0xef && is_cont(s[1]) && is_cont(s[2]) {
        3
    } else if s.len() >= 4 && s[0] == 0xf0 && 0x90 <= s[1] <= 0xbf && is_cont(s[2]) && is_cont(
        s[3],
    ) {
        4
    } else if s.len() >= 4 && 0xf1 <= s[0] <= 0xf3 && is_cont(s[1]) && is_cont(s[2]) && is_cont(
        s[3],
    ) {
        4
    } else if s.len() >= 4 && s[0] == 0xf4 && 0x80 <= s[1] <= 0x8f && is_cont(s[2]) && is_cont(
        s[3],
    ) {
        4
    } else {
        0
    }
}

/// `s` is a well-formed UTF-8 byte string.
pub open spec fn is_utf8(s: Seq<u8>) -> bool
    decreases s.len(),
{
    if s.len() == 0 {
        true
    } else {
        let k = first_char_len(s);
        k > 0 && is_utf8(s.skip(k))
    }
}

/// Checks that `s` is well-formed UTF-8.
pub fn check_utf8(s: &[u8]) -> (r: bool)
    ensures
        r == is_utf8(s@),
{
    let n = s.len();
    let mut i: usize = 0;
    proof {
        assert(s@.skip(0) =~= s@);
    }
    while i < n
        invariant
            i <= n,
            n == s@.len() <= usize::MAX,
            is_utf8(s@) == is_utf8(s@.skip(i as int)),
        decreases n - i,
    {
        let b0 = s[i];
        let rem = n - i;
        let k: usize = if b0 < 0x80 {
            1
        } else if rem >= 2 && 0xc2 <= b0 && b0 <= 0xdf && is_cont_byte(s[i + 1]) {
            2
        } else if rem >= 3 && b0 == 0xe0 && 0xa0 <= s[i + 1] && s[i + 1] <= 0xbf && is_cont_byte(
            s[i + 2],
        ) {
            3
        } else if rem >= 3 && 0xe1 <= b0 && b0 <= 0xec && is_cont_byte(s[i + 1]) && is_cont_byte(
            s[i + 2],
        ) {
            3
        } else if rem >= 3 && b0 == 0xed && 0x80 <= s[i + 1] && s[i + 1] <= 0x9f && is_cont_byte(
            s[i + 2],
        ) {
            3
        } else if rem >= 3 && 0xee <= b0 && b0 <= 0xef && is_cont_byte(s[i + 1]) && is_cont_byte(
            s[i + 2],
        ) {
            3
        } else if rem >= 4 && b0 == 0xf0 && 0x90 <= s[i + 1] && s[i + 1] <= 0xbf && is_cont_byte(
            s[i + 2],
        ) && is_cont_byte(s[i + 3]) {
            4
        } else if rem >= 4 && 0xf1 <= b0 && b0 <= 0xf3 && is_cont_byte(s[i + 1]) && is_cont_byte(
            s[i + 2],
        ) && is_cont_byte(s[i + 3]) {
            4
        } else if rem >= 4 && b0 == 0xf4 && 0x80 <= s[i + 1] && s[i + 1] <= 0x8f && is_cont_byte(
            s[i + 2],
        ) && is_cont_byte(s[i + 3]) {
            4
        } else {
            0
        };
        proof {
            let t = s@.skip(i as int);
            assert(t.len() == n - i);
            assert(forall|j: int| 0 <= j < t.len() ==> #[trigger] t[j] == s@[i + j]);
            assert(k == first_char_len(t));
        }
        if k == 0 {
            assert(!is_utf8(s@.skip(i as int)));
            return false;
        }
        proof {
            assert(s@.skip(i as int).skip(k as int) =~= s@.skip(i + k));
        }
        i = i + k;
    }
    proof {
        assert(s@.skip(n as int) =~= Seq::<u8>::empty());
    }
    true
}

/// Tests for a UTF-8 continuation byte.
fn is_cont_byte(b: u8) -> (r: bool)
    ensures
        r == is_cont(b),
{
    0x80 <= b && b <= 0xbf
}

} // verus!
