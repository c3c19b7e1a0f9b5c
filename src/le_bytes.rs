//! Little-endian encoding of fixed-width integers.

use vstd::prelude::*;

verus! {

/// The value of a little-endian byte string.
pub open spec fn le_value(s: Seq<u8>) -> nat
    decreases s.len(),
{
    if s.len() == 0 {
        0
    } else {
        s[0] as nat + 256 * le_value(s.drop_first())
    }
}

/// The `n` low-order bytes of `v`, least significant first.
pub open spec fn le_bytes(v: nat, n: nat) -> Seq<u8>
    decreases n,
{
    if n == 0 {
        Seq::empty()
    } else {
        seq![(v % 256) as u8] + le_bytes(v / 256, (n - 1) as nat)
    }
}

pub open spec fn pow256(n: nat) -> nat
    decreases n,
{
    if n == 0 {
        1
    } else {
        256 * pow256((n - 1) as nat)
    }
}

/// The little-endian `u64` stored at `pos`.
pub open spec fn u64_at(s: Seq<u8>, pos: int) -> u64 {
    le_value(s.subrange(pos, pos + 8)) as u64
}

pub proof fn lemma_le_bytes_len(v: nat, n: nat)
    ensures
        le_bytes(v, n).len() == n,
    decreases n,
{
    if n > 0 {
        lemma_le_bytes_len(v / 256, (n - 1) as nat);
    }
}

pub proof fn lemma_le_value_bound(s: Seq<u8>)
    ensures
        le_value(s) < pow256(s.len()),
    decreases s.len(),
{
    if s.len() > 0 {
        let t = s.drop_first();
        lemma_le_value_bound(t);
        let a = s[0] as nat;
        let b = le_value(t);
        let p = pow256(t.len());
        assert(a + 256 * b < 256 * p) by (nonlinear_arith)
            requires
                a < 256,
                b < p,
        ;
    }
}

pub proof fn lemma_pow256_8()
    ensures
        pow256(8) == 0x1_0000_0000_0000_0000,
{
    reveal_with_fuel(pow256, 9);
}

/// Decoding the encoding of a value that fits in `n` bytes gives the value back.
pub proof fn lemma_le_round_trip(v: nat, n: nat)
    requires
        v < pow256(n),
    ensures
        le_value(le_bytes(v, n)) == v,
    decreases n,
{
    if n > 0 {
        let q = v / 256;
        let p = pow256((n - 1) as nat);
        assert(q < p) by (nonlinear_arith)
            requires
                v < 256 * p,
                q == v / 256,
        ;
        lemma_le_round_trip(q, (n - 1) as nat);
        let s = le_bytes(v, n);
        assert(s.drop_first() =~= le_bytes(q, (n - 1) as nat));
        assert(v == v % 256 + 256 * q) by (nonlinear_arith)
            requires
                q == v / 256,
        ;
    } else {
        assert(pow256(0) == 1);
    }
}

/// Appends the eight little-endian bytes of `v`.
pub fn push_u64_le(out: &mut Vec<u8>, v: u64)
    ensures
        final(out)@ == old(out)@ + le_bytes(v as nat, 8),
{
    let mut x: u64 = v;
    let mut k: usize = 0;
    while k < 8
        invariant
            k <= 8,
            out@ + le_bytes(x as nat, (8 - k) as nat) == old(out)@ + le_bytes(v as nat, 8),
        decreases 8 - k,
    {
        let ghost before = out@;
        let ghost m = (8 - k) as nat;
        out.push((x % 256) as u8);
        assert(le_bytes(x as nat, m) == seq![(x % 256) as u8] + le_bytes((x / 256) as nat, (m - 1) as nat));
        assert(out@ + le_bytes((x / 256) as nat, (m - 1) as nat) =~= before + le_bytes(x as nat, m));
        x = x / 256;
        k = k + 1;
    }
    assert(le_bytes(x as nat, 0) =~= Seq::<u8>::empty());
    assert(out@ + Seq::<u8>::empty() =~= out@);
}

/// Reads the little-endian `u64` stored at `pos`.
pub fn read_u64_le(buf: &[u8], pos: usize) -> (r: u64)
    requires
        pos + 8 <= buf@.len(),
    ensures
        r == u64_at(buf@, pos as int),
        r as nat == le_value(buf@.subrange(pos as int, pos + 8)),
{
    let n = buf.len();
    assert(pos + 8 <= n);
    let mut v: u64 = 0;
    let mut k: usize = 8;
    while k > 0
        invariant
            k <= 8,
            pos + 8 <= n,
            n == buf@.len(),
            v as nat == le_value(buf@.subrange(pos + k, pos + 8)),
        decreases k,
    {
        let ghost tail = buf@.subrange(pos + k, pos + 8);
        proof {
            lemma_le_value_bound(tail);
            lemma_pow256_8();
            let m = tail.len();
            assert(pow256(m) * 256 == pow256(m + 1));
            if m + 1 < 8 {
                lemma_pow_mono((m + 1) as nat, 8);
            }
        }
        let b = buf[pos + (k - 1)];
        assert(v * 256 + b < 0x1_0000_0000_0000_0000) by (nonlinear_arith)
            requires
                v < pow256(tail.len()),
                pow256(tail.len()) * 256 <= 0x1_0000_0000_0000_0000,
                b < 256,
        ;
        let ghost next = buf@.subrange(pos + k - 1, pos + 8);
        assert(next.drop_first() =~= tail);
        v = b as u64 + 256 * v;
        k = k - 1;
    }
    proof {
        lemma_le_value_bound(buf@.subrange(pos as int, pos + 8));
        lemma_pow256_8();
    }
    v
}

proof fn lemma_pow_mono(a: nat, b: nat)
    requires
        a <= b,
    ensures
        pow256(a) <= pow256(b),
    decreases b - a,
{
    if a < b {
        lemma_pow_mono(a, (b - 1) as nat);
        assert(pow256(b) == 256 * pow256((b - 1) as nat));
    }
}

} // verus!
