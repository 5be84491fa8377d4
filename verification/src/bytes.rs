//! Helpers on byte strings: equality, substring search, and stripping a
//! leading UTF-8 byte-order mark.

use vstd::prelude::*;

verus! {

/// True when `n` occurs as a contiguous subrange of `h`.
pub open spec fn has_subrange(h: Seq<u8>, n: Seq<u8>) -> bool {
    exists|i: int|
        0 <= i && i + n.len() <= h.len() && #[trigger] h.subrange(i, i + n.len()) == n
}

/// Byte-for-byte equality of two byte strings.
pub fn bytes_eq(a: &[u8], b: &[u8]) -> (r: bool)
    ensures
        r == (a@ == b@),
{
    if a.len() != b.len() {
        assert(a@.len() != b@.len());
        return false;
    }
    for i in 0..a.len()
        invariant
            a@.len() == b@.len(),
            forall|j: int| 0 <= j < i ==> a@[j] == b@[j],
    {
        if a[i] != b[i] {
            return false;
        }
    }
    proof {
        assert(a@ =~= b@);
    }
    true
}

/// True when `needle` occurs as a contiguous run of bytes inside `hay`.
pub fn contains_bytes(hay: &[u8], needle: &[u8]) -> (r: bool)
    ensures
        r == has_subrange(hay@, needle@),
{
    if needle.len() > hay.len() {
        assert(!has_subrange(hay@, needle@));
        return false;
    }
    let last_start = hay.len() - needle.len();
    let mut i: usize = 0;
    while i <= last_start
        invariant
            hay@.len() <= usize::MAX,
            needle@.len() <= hay@.len(),
            last_start == hay@.len() - needle@.len(),
            i <= last_start + 1,
            forall|k: int|
                0 <= k < i ==> #[trigger] hay@.subrange(k, k + needle@.len() as int)
                    != needle@,
        decreases last_start + 1 - i,
    {
        let mut j: usize = 0;
        let mut matches = true;
        while j < needle.len()
            invariant
                hay@.len() <= usize::MAX,
                needle@.len() <= hay@.len(),
                i + needle@.len() <= hay@.len(),
                j <= needle@.len(),
                matches == (forall|k: int|
                    0 <= k < j ==> hay@[i + k] == #[trigger] needle@[k]),
            decreases needle@.len() - j,
        {
            if hay[i + j] != needle[j] {
                matches = false;
                j = needle.len();
            } else {
                j = j + 1;
            }
        }
        if matches {
            assert(j == needle@.len());
            assert(hay@.subrange(i as int, i + needle@.len() as int) =~= needle@);
            return true;
        }
        assert(hay@.subrange(i as int, i + needle@.len() as int) != needle@);
        i = i + 1;
    }
    proof {
        assert forall|k: int| 0 <= k && k + needle@.len() <= hay@.len() implies #[trigger] hay@
            .subrange(k, k + needle@.len() as int) != needle@ by {
            assert(k < i);
        }
    }
    false
}

/// The UTF-8 byte-order mark.
pub open spec fn bom_bytes() -> Seq<u8> {
    seq![0xefu8, 0xbbu8, 0xbfu8]
}

/// `s` without a leading byte-order mark, if one is present.
pub open spec fn strip_bom_spec(s: Seq<u8>) -> Seq<u8> {
    if s.len() >= 3 && s.subrange(0, 3) == bom_bytes() {
        s.skip(3)
    } else {
        s
    }
}

/// Removes a leading UTF-8 byte-order mark from `data`, copying the rest.
pub fn strip_bom(data: &Vec<u8>) -> (r: Vec<u8>)
    ensures
        r@ == strip_bom_spec(data@),
{
    let start: usize = if data.len() >= 3 && data[0] == 0xef && data[1] == 0xbb && data[2]
        == 0xbf {
        proof {
            assert(data@.subrange(0, 3) =~= bom_bytes());
        }
        3
    } else {
        proof {
            if data@.len() >= 3 && data@.subrange(0, 3) == bom_bytes() {
                assert(data@[0] == 0xef && data@[1] == 0xbb && data@[2] == 0xbf);
            }
        }
        0
    };
    let mut r: Vec<u8> = Vec::new();
    let mut i: usize = start;
    while i < data.len()
        invariant
            start <= i <= data@.len(),
            r@ =~= data@.subrange(start as int, i as int),
        decreases data@.len() - i,
    {
        r.push(data[i]);
        i = i + 1;
    }
    proof {
        if start == 3 {
            assert(r@ =~= data@.skip(3));
        } else {
            assert(r@ =~= data@);
        }
    }
    r
}


/// A fresh copy of `v`.
pub fn copy_bytes(v: &Vec<u8>) -> (r: Vec<u8>)
    ensures
        r@ == v@,
{
    let n = v.len();
    let mut r: Vec<u8> = Vec::new();
    let mut i: usize = 0;
    while i < n
        invariant
            i <= n == v@.len(),
            r@ =~= v@.take(i as int),
        decreases n - i,
    {
        r.push(v[i]);
        i = i + 1;
    }
    proof {
        assert(v@.take(n as int) =~= v@);
    }
    r
}


/// A fresh copy of a sequence of byte strings.
pub fn copy_fields(v: &Vec<Vec<u8>>) -> (r: Vec<Vec<u8>>)
    ensures
        r.deep_view() == v.deep_view(),
{
    let n = v.len();
    let mut r: Vec<Vec<u8>> = Vec::new();
    let mut i: usize = 0;
    while i < n
        invariant
            i <= n == v@.len(),
            r@.len() == i,
            forall|l: int| 0 <= l < i ==> (#[trigger] r@[l])@ == v@[l]@,
        decreases n - i,
    {
        r.push(copy_bytes(&v[i]));
        i = i + 1;
    }
    proof {
        assert forall|l: int| 0 <= l < n implies #[trigger] r.deep_view()[l]
            == v.deep_view()[l] by {
            assert(r@[l].deep_view() =~= r@[l]@);
            assert(v@[l].deep_view() =~= v@[l]@);
        }
        assert(r.deep_view() =~= v.deep_view());
    }
    r
}

} // verus!
