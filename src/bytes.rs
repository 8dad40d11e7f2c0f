//! Little-endian integer fields inside byte buffers.

use vstd::arithmetic::div_mod::lemma_fundamental_div_mod_converse;
use vstd::prelude::*;

verus! {

/// `256` raised to the power `n`.
pub open spec fn pow256(n: nat) -> nat
    decreases n,
{
    if n == 0 {
        1
    } else {
        256 * pow256((n - 1) as nat)
    }
}

/// The unsigned integer that the bytes `s` encode, least significant byte first.
pub open spec fn le_value(s: Seq<u8>) -> nat
    decreases s.len(),
{
    if s.len() == 0 {
        0
    } else {
        s[0] as nat + 256 * le_value(s.drop_first())
    }
}

/// The `n` low bytes of `v`, least significant first.
pub open spec fn le_bytes(v: nat, n: nat) -> Seq<u8>
    decreases n,
{
    if n == 0 {
        Seq::empty()
    } else {
        seq![(v % 256) as u8] + le_bytes(v / 256, (n - 1) as nat)
    }
}

pub proof fn lemma_le_bytes_len(v: nat, n: nat)
    ensures
        le_bytes(v, n).len() == n,
    decreases n,
{
    if n > 0 {
        lemma_le_bytes_len(v / 256, (n - 1) as nat);
    }
}

pub proof fn lemma_le_value_bound(s: Seq<u8>)
    ensures
        le_value(s) < pow256(s.len()),
    decreases s.len(),
{
    if s.len() > 0 {
        lemma_le_value_bound(s.drop_first());
        let a = s[0] as nat;
        let b = le_value(s.drop_first());
        let p = pow256((s.len() - 1) as nat);
        assert(a + 256 * b < 256 * p) by (nonlinear_arith)
            requires
                a < 256,
                b < p,
        ;
    }
}

pub proof fn lemma_pow256_mono(m: nat, n: nat)
    requires
        m <= n,
    ensures
        pow256(m) <= pow256(n),
    decreases n - m,
{
    if m < n {
        lemma_pow256_mono(m, (n - 1) as nat);
    }
}

pub proof fn lemma_pow256_eight()
    ensures
        pow256(1) == 0x100,
        pow256(2) == 0x1_0000,
        pow256(4) == 0x1_0000_0000,
        pow256(8) == 0x1_0000_0000_0000_0000,
{
    reveal_with_fuel(pow256, 9);
}

/// Encoding the value of a byte sequence at its own length gives the sequence back.
pub proof fn lemma_le_round_trip(s: Seq<u8>)
    ensures
        le_bytes(le_value(s), s.len()) == s,
    decreases s.len(),
{
    if s.len() > 0 {
        let rest = s.drop_first();
        lemma_le_round_trip(rest);
        let v = le_value(s);
        lemma_fundamental_div_mod_converse(v as int, 256, le_value(rest) as int, s[0] as int);
        assert(le_bytes(v, s.len()) =~= s);
    }
}

/// Reads `n` bytes at `start` as a little-endian unsigned integer.
pub fn read_le(b: &[u8], start: usize, n: usize) -> (r: u64)
    requires
        n <= 8,
        start + n <= b@.len(),
    ensures
        r as nat == le_value(b@.subrange(start as int, start + n)),
{
    let len = b.len();
    let mut v: u64 = 0;
    let mut i: usize = n;
    proof {
        assert(b@.subrange(start + n, start + n as int) =~= Seq::<u8>::empty());
    }
    while i > 0
        invariant
            i <= n,
            n <= 8,
            start + n <= b@.len(),
            b@.len() == len,
            v as nat == le_value(b@.subrange(start + i, start + n)),
        decreases i,
    {
        proof {
            lemma_le_value_bound(b@.subrange(start + i, start + n));
            lemma_pow256_mono((n - i) as nat, 7);
            assert(pow256(8) == 256 * pow256(7));
            lemma_pow256_eight();
        }
        i = i - 1;
        let x = b[start + i];
        proof {
            let p = pow256(7);
            assert((v as nat) * 256 + (x as nat) < 256 * p) by (nonlinear_arith)
                requires
                    (v as nat) < p,
                    (x as nat) < 256,
            ;
            assert(b@.subrange(start + i, start + n).drop_first() =~= b@.subrange(
                start + i + 1,
                start + n,
            ));
        }
        v = v * 256 + x as u64;
    }
    v
}

/// Appends the `n` low bytes of `v` to `out`, least significant first.
pub fn push_le(out: &mut Vec<u8>, v: u64, n: usize)
    ensures
        final(out)@ == old(out)@ + le_bytes(v as nat, n as nat),
{
    let mut w: u64 = v;
    let mut k: usize = 0;
    proof {
        assert(old(out)@ + le_bytes(v as nat, n as nat) =~= out@ + le_bytes(w as nat, (n - k) as nat));
    }
    while k < n
        invariant
            k <= n,
            out@ + le_bytes(w as nat, (n - k) as nat) == old(out)@ + le_bytes(v as nat, n as nat),
        decreases n - k,
    {
        proof {
            let rest = le_bytes(w as nat, (n - k) as nat);
            assert(rest == seq![(w as nat % 256) as u8] + le_bytes(w as nat / 256, (n - k - 1) as nat));
        }
        let byte = (w % 256) as u8;
        let ghost before = out@;
        let ghost w0 = w;
        out.push(byte);
        w = w / 256;
        proof {
            assert(out@ + le_bytes(w as nat, (n - (k + 1)) as nat) =~= before + le_bytes(
                w0 as nat,
                (n - k) as nat,
            )) by {
                assert(before + (seq![byte] + le_bytes(w as nat, (n - (k + 1)) as nat)) =~= out@
                    + le_bytes(w as nat, (n - (k + 1)) as nat));
            }
        }
        k = k + 1;
    }
    proof {
        assert(out@ + le_bytes(w as nat, 0) =~= out@);
    }
}

/// Copies `b[start..end]` into a new vector.
pub fn copy_range(b: &[u8], start: usize, end: usize) -> (r: Vec<u8>)
    requires
        start <= end <= b@.len(),
    ensures
        r@ == b@.subrange(start as int, end as int),
{
    let mut r: Vec<u8> = Vec::with_capacity(end - start);
    let mut i: usize = start;
    while i < end
        invariant
            start <= i <= end <= b@.len(),
            r@ == b@.subrange(start as int, i as int),
        decreases end - i,
    {
        r.push(b[i]);
        i = i + 1;
        proof {
            assert(r@ =~= b@.subrange(start as int, i as int));
        }
    }
    r
}

} // verus!
