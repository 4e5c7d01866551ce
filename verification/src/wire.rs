//! Big-endian byte-sequence primitives shared by the wire codec and the
//! packet demultiplexer.

use vstd::prelude::*;

verus! {

/// Value of a byte sequence read as a big-endian unsigned integer.
pub open spec fn be_val(s: Seq<u8>) -> nat
    decreases s.len(),
{
    if s.len() == 0 {
        0
    } else {
        (be_val(s.drop_last()) * 256 + s.last()) as nat
    }
}

/// The `w`-byte big-endian encoding of `v % 256^w`.
pub open spec fn be_bytes(v: nat, w: nat) -> Seq<u8>
    decreases w,
{
    if w == 0 {
        Seq::empty()
    } else {
        be_bytes(v / 256, (w - 1) as nat).push((v % 256) as u8)
    }
}

/// 256 to the `w`-th power.
pub open spec fn pow256(w: nat) -> nat
    decreases w,
{
    if w == 0 {
        1
    } else {
        256 * pow256((w - 1) as nat)
    }
}

pub proof fn lemma_pow256_values()
    ensures
        pow256(0) == 1,
        pow256(1) == 0x100,
        pow256(2) == 0x1_0000,
        pow256(3) == 0x100_0000,
        pow256(4) == 0x1_0000_0000,
        pow256(5) == 0x100_0000_0000,
        pow256(6) == 0x1_0000_0000_0000,
        pow256(7) == 0x100_0000_0000_0000,
        pow256(8) == 0x1_0000_0000_0000_0000,
{
    reveal_with_fuel(pow256, 9);
}

/// A big-endian value is bounded by 256 to the sequence's length.
pub proof fn lemma_be_val_bound(s: Seq<u8>)
    ensures
        be_val(s) < pow256(s.len()),
    decreases s.len(),
{
    if s.len() == 0 {
    } else {
        lemma_be_val_bound(s.drop_last());
        let p = be_val(s.drop_last());
        assert(p * 256 + s.last() < pow256(s.len())) by (nonlinear_arith)
            requires
                p < pow256((s.len() - 1) as nat),
                s.last() < 256,
                pow256(s.len()) == 256 * pow256((s.len() - 1) as nat),
        ;
    }
}

pub proof fn lemma_pow256_mono(a: nat, b: nat)
    requires
        a <= b,
    ensures
        pow256(a) <= pow256(b),
    decreases b,
{
    if a < b {
        lemma_pow256_mono(a, (b - 1) as nat);
        assert(pow256(b) == 256 * pow256((b - 1) as nat));
        assert(pow256((b - 1) as nat) <= 256 * pow256((b - 1) as nat)) by (nonlinear_arith)
            requires
                pow256((b - 1) as nat) >= 0,
        ;
    }
}

pub proof fn lemma_be_bytes_len(v: nat, w: nat)
    ensures
        be_bytes(v, w).len() == w,
    decreases w,
{
    if w > 0 {
        lemma_be_bytes_len(v / 256, (w - 1) as nat);
    }
}

/// Reading back the encoding of a value below `256^w` yields the value.
pub proof fn lemma_be_roundtrip(v: nat, w: nat)
    requires
        v < pow256(w),
    ensures
        be_val(be_bytes(v, w)) == v,
    decreases w,
{
    if w == 0 {
    } else {
        let s = be_bytes(v, w);
        lemma_be_bytes_len(v, w);
        assert(s.drop_last() =~= be_bytes(v / 256, (w - 1) as nat));
        assert(v / 256 < pow256((w - 1) as nat)) by (nonlinear_arith)
            requires
                v < pow256(w),
                pow256(w) == 256 * pow256((w - 1) as nat),
        ;
        lemma_be_roundtrip(v / 256, (w - 1) as nat);
        assert(be_val(s) == (v / 256) * 256 + (v % 256));
        assert((v / 256) * 256 + (v % 256) == v) by (nonlinear_arith);
    }
}

/// Reads `w` big-endian bytes at `pos`.
pub fn read_be(b: &Vec<u8>, pos: usize, w: usize) -> (r: u64)
    requires
        w <= 8,
        pos + w <= b@.len(),
    ensures
        r == be_val(b@.subrange(pos as int, pos + w)),
        r < pow256(w as nat),
    decreases w,
{
    proof {
        lemma_pow256_values();
        lemma_pow256_mono(w as nat, 8);
        lemma_be_val_bound(b@.subrange(pos as int, pos + w));
    }
    if w == 0 {
        assert(b@.subrange(pos as int, pos as int) =~= Seq::<u8>::empty());
        0
    } else {
        let n = b.len();
        let hi = read_be(b, pos, w - 1);
        let lo = b[pos + (w - 1)];
        proof {
            let s = b@.subrange(pos as int, pos + w);
            assert(s.drop_last() =~= b@.subrange(pos as int, pos + w - 1));
            assert(s.last() == b@[pos + w - 1]);
            lemma_pow256_mono((w - 1) as nat, 7);
            assert(hi * 256 + lo < 0x1_0000_0000_0000_0000) by (nonlinear_arith)
                requires
                    hi < pow256((w - 1) as nat),
                    pow256((w - 1) as nat) <= pow256(7),
                    pow256(7) == 0x100_0000_0000_0000,
                    lo < 256,
            ;
        }
        hi * 256 + lo as u64
    }
}

/// Appends the `w`-byte big-endian encoding of `v` to `out`.
pub fn write_be(out: &mut Vec<u8>, v: u64, w: usize)
    requires
        w <= 8,
    ensures
        final(out)@ == old(out)@ + be_bytes(v as nat, w as nat),
    decreases w,
{
    if w == 0 {
        assert(final(out)@ =~= old(out)@ + be_bytes(v as nat, 0));
    } else {
        write_be(out, v / 256, w - 1);
        out.push((v % 256) as u8);
        assert(final(out)@ =~= old(out)@ + be_bytes(v as nat, w as nat));
    }
}

} // verus!
