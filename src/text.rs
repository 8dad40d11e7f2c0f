//! Prefix, suffix and equality tests on byte and character sequences.

use vstd::prelude::*;
use vstd::string::StrSliceExecFns;

verus! {

/// Whether `b` begins with `p`.
pub fn bytes_start_with(b: &[u8], p: &[u8]) -> (r: bool)
    ensures
        r == p@.is_prefix_of(b@),
{
    if p.len() > b.len() {
        return false;
    }
    let mut i: usize = 0;
    while i < p.len()
        invariant
            p@.len() <= b@.len(),
            i <= p@.len(),
            forall|j: int| 0 <= j < i ==> p@[j] == b@[j],
        decreases p@.len() - i,
    {
        if p[i] != b[i] {
            return false;
        }
        i = i + 1;
    }
    proof {
        assert(p@ =~= b@.subrange(0, p@.len() as int));
    }
    true
}

/// Whether `b` ends with `p`.
pub fn bytes_end_with(b: &[u8], p: &[u8]) -> (r: bool)
    ensures
        r == p@.is_suffix_of(b@),
{
    if p.len() > b.len() {
        return false;
    }
    let blen = b.len();
    let off = blen - p.len();
    let mut i: usize = 0;
    while i < p.len()
        invariant
            p@.len() <= b@.len(),
            blen == b@.len(),
            off == b@.len() - p@.len(),
            i <= p@.len(),
            forall|j: int| 0 <= j < i ==> p@[j] == b@[off + j],
        decreases p@.len() - i,
    {
        if p[i] != b[off + i] {
            proof {
                assert(b@.subrange(off as int, b@.len() as int)[i as int] == b@[off + i]);
            }
            return false;
        }
        i = i + 1;
    }
    proof {
        assert(p@ =~= b@.subrange(off as int, b@.len() as int));
    }
    true
}

/// Whether the text `s` begins with `p`.
pub fn str_starts_with(s: &str, p: &str) -> (r: bool)
    ensures
        r == p@.is_prefix_of(s@),
{
    let slen = s.unicode_len();
    let plen = p.unicode_len();
    if plen > slen {
        return false;
    }
    let mut i: usize = 0;
    while i < plen
        invariant
            plen == p@.len(),
            slen == s@.len(),
            plen <= slen,
            i <= plen,
            forall|j: int| 0 <= j < i ==> p@[j] == s@[j],
        decreases plen - i,
    {
        if p.get_char(i) != s.get_char(i) {
            return false;
        }
        i = i + 1;
    }
    proof {
        assert(p@ =~= s@.subrange(0, p@.len() as int));
    }
    true
}

/// Whether the texts `a` and `b` are equal.
pub fn str_eq(a: &str, b: &str) -> (r: bool)
    ensures
        r == (a@ == b@),
{
    if a.unicode_len() != b.unicode_len() {
        return false;
    }
    let r = str_starts_with(a, b);
    proof {
        if r {
            assert(a@ =~= b@);
        }
    }
    r
}

} // verus!
