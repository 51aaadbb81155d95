//! Little-endian wire layout of fixed-width integers.

use vstd::prelude::*;

verus! {

/// 256 raised to a power: the count of values a byte width can carry.
pub open spec fn pow256(w: nat) -> nat
    decreases w,
{
    if w == 0 {
        1
    } else {
        256 * pow256((w - 1) as nat)
    }
}

pub proof fn lemma_pow256_values()
    ensures
        pow256(0) == 1,
        pow256(1) == 0x100,
        pow256(2) == 0x10000,
        pow256(3) == 0x1000000,
        pow256(4) == 0x100000000,
        pow256(5) == 0x10000000000,
        pow256(6) == 0x1000000000000,
        pow256(7) == 0x100000000000000,
        pow256(8) == 0x10000000000000000,
{
    assert(pow256(1) == 256 * pow256(0));
    assert(pow256(2) == 256 * pow256(1));
    assert(pow256(3) == 256 * pow256(2));
    assert(pow256(4) == 256 * pow256(3));
    assert(pow256(5) == 256 * pow256(4));
    assert(pow256(6) == 256 * pow256(5));
    assert(pow256(7) == 256 * pow256(6));
    assert(pow256(8) == 256 * pow256(7));
}

pub proof fn lemma_pow256_mono(a: nat, b: nat)
    requires
        a <= b,
    ensures
        pow256(a) <= pow256(b),
    decreases b,
{
    if a < b {
        lemma_pow256_mono(a, (b - 1) as nat);
    }
}

/// The `w` little-endian bytes of a nonnegative value, least significant
/// first; the value is taken modulo 256^w.
pub open spec fn le_bytes_of(v: nat, w: nat) -> Seq<u8>
    decreases w,
{
    if w == 0 {
        Seq::empty()
    } else {
        seq![(v % 256) as u8] + le_bytes_of(v / 256, (w - 1) as nat)
    }
}

/// The value a little-endian byte string denotes.
pub open spec fn le_val(b: Seq<u8>) -> nat
    decreases b.len(),
{
    if b.len() == 0 {
        0
    } else {
        b[0] as nat + 256 * le_val(b.drop_first())
    }
}

pub proof fn lemma_le_bytes_len(v: nat, w: nat)
    ensures
        le_bytes_of(v, w).len() == w,
    decreases w,
{
    if w > 0 {
        lemma_le_bytes_len(v / 256, (w - 1) as nat);
    }
}

pub proof fn lemma_le_val_bound(b: Seq<u8>)
    ensures
        le_val(b) < pow256(b.len()),
    decreases b.len(),
{
    if b.len() > 0 {
        lemma_le_val_bound(b.drop_first());
    }
}

/// Law: a value below 256^w survives the round trip through its w
/// little-endian bytes.
pub proof fn lemma_le_round_trip(v: nat, w: nat)
    requires
        v < pow256(w),
    ensures
        le_val(le_bytes_of(v, w)) == v,
    decreases w,
{
    if w > 0 {
        let rest = le_bytes_of(v / 256, (w - 1) as nat);
        assert(le_bytes_of(v, w) == seq![(v % 256) as u8] + rest);
        assert((seq![(v % 256) as u8] + rest).drop_first() =~= rest);
        assert((seq![(v % 256) as u8] + rest)[0] == (v % 256) as u8);
        assert(v / 256 < pow256((w - 1) as nat)) by {
            assert(pow256(w) == 256 * pow256((w - 1) as nat));
            assert(v < 256 * pow256((w - 1) as nat));
            assert(v / 256 < pow256((w - 1) as nat)) by (nonlinear_arith)
                requires
                    v < 256 * pow256((w - 1) as nat),
            ;
        }
        lemma_le_round_trip(v / 256, (w - 1) as nat);
        assert(v % 256 + 256 * (v / 256) == v);
    }
}

/// Computes 256^w for a byte width.
pub fn pow256_exec(w: usize) -> (r: u128)
    requires
        w <= 8,
    ensures
        r == pow256(w as nat),
{
    proof {
        lemma_pow256_values();
    }
    let mut r: u128 = 1;
    let mut i: usize = 0;
    while i < w
        invariant
            i <= w <= 8,
            r == pow256(i as nat),
        decreases w - i,
    {
        proof {
            lemma_pow256_values();
            lemma_pow256_mono((i + 1) as nat, 8);
        }
        r = r * 256;
        i = i + 1;
    }
    r
}

/// Writes the `w` little-endian bytes of `v`.
pub fn le_encode(v: u64, w: usize) -> (r: Vec<u8>)
    requires
        w <= 8,
    ensures
        r@ == le_bytes_of(v as nat, w as nat),
        r@.len() == w,
{
    let mut out: Vec<u8> = Vec::new();
    let mut cur: u64 = v;
    let mut i: usize = 0;
    while i < w
        invariant
            i <= w <= 8,
            out@.len() == i,
            out@ + le_bytes_of(cur as nat, (w - i) as nat) == le_bytes_of(v as nat, w as nat),
        decreases w - i,
    {
        let ghost pre = out@;
        let ghost c0 = cur as nat;
        let b: u8 = (cur % 256) as u8;
        out.push(b);
        cur = cur / 256;
        proof {
            assert(le_bytes_of(c0, (w - i) as nat) == seq![(c0 % 256) as u8] + le_bytes_of(
                c0 / 256,
                (w - i - 1) as nat,
            ));
            assert(out@ + le_bytes_of(cur as nat, (w - i - 1) as nat) =~= pre + le_bytes_of(
                c0,
                (w - i) as nat,
            ));
        }
        i = i + 1;
    }
    proof {
        assert(out@ + le_bytes_of(cur as nat, 0) =~= out@);
        lemma_le_bytes_len(v as nat, w as nat);
    }
    out
}

/// Reads bytes `[start, start + w)` of `b` as a little-endian value.
pub fn le_decode_at(b: &[u8], start: usize, w: usize) -> (r: u64)
    requires
        w <= 8,
        start + w <= b@.len(),
        b@.len() <= usize::MAX,
    ensures
        r as nat == le_val(b@.subrange(start as int, (start + w) as int)),
        (r as nat) < pow256(w as nat),
{
    proof {
        lemma_pow256_values();
    }
    let hi: usize = start + w;
    let mut acc: u64 = 0;
    let mut i: usize = hi;
    while i > start
        invariant
            start <= i <= hi <= b@.len(),
            hi == start + w,
            w <= 8,
            acc as nat == le_val(b@.subrange(i as int, hi as int)),
            (acc as nat) < pow256((hi - i) as nat),
        decreases i,
    {
        proof {
            lemma_pow256_values();
            lemma_pow256_mono((hi - i) as nat, 7);
        }
        i = i - 1;
        let byte = b[i];
        proof {
            let cur = b@.subrange(i as int, hi as int);
            assert(cur.len() > 0);
            assert(cur[0] == b@[i as int]);
            assert(cur.drop_first() =~= b@.subrange(i as int + 1, hi as int));
        }
        acc = acc * 256 + (byte as u64);
    }
    acc
}

/// Reads the first `w` bytes of `b` as a little-endian value.
pub fn le_decode(b: &[u8], w: usize) -> (r: u64)
    requires
        w <= 8,
        w <= b@.len(),
        b@.len() <= usize::MAX,
    ensures
        r as nat == le_val(b@.subrange(0, w as int)),
        (r as nat) < pow256(w as nat),
{
    le_decode_at(b, 0, w)
}

} // verus!
