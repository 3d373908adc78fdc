//! What the elements of an encoded tensor stand for.

use crate::arith::{self, Math, Scalar};
use crate::bytes;
use crate::exact::{exact, Reals};
use crate::quant;
use crate::weights;
use vstd::prelude::*;

verus! {

/// The number that two bytes hold, the less significant first.
proof fn lemma_two_bytes(b: Seq<u8>, pos: int)
    requires
        0 <= pos,
        pos + 2 <= b.len(),
    ensures
        bytes::le_nat(b.subrange(pos, pos + 2)) == b[pos] + 256 * b[pos + 1],
{
    let s = b.subrange(pos, pos + 2);
    reveal_with_fuel(bytes::le_nat, 3);
    assert(s.skip(1).skip(1).len() == 0);
    assert(s.skip(1)[0] == s[1]);
}

/// The number that four bytes hold, the less significant first.
proof fn lemma_four_bytes(b: Seq<u8>, pos: int)
    requires
        0 <= pos,
        pos + 4 <= b.len(),
    ensures
        bytes::le_nat(b.subrange(pos, pos + 4)) == b[pos] + 256 * b[pos + 1] + 65536 * b[pos + 2]
            + 16777216 * b[pos + 3],
{
    let s = b.subrange(pos, pos + 4);
    reveal_with_fuel(bytes::le_nat, 5);
    assert(s.skip(1)[0] == s[1]);
    assert(s.skip(1).skip(1)[0] == s[2]);
    assert(s.skip(1).skip(1).skip(1)[0] == s[3]);
    assert(s.skip(1).skip(1).skip(1).skip(1).len() == 0);
}

/// The half-precision number that begins at a place of a block.
pub open spec fn half<T>(v: Reals<T>, b: Seq<u8>, pos: int) -> real {
    (v.half)((b[pos] + 256 * b[pos + 1]) as u16)
}

proof fn lemma_scaled<T: Scalar, M: Math<T>>(
    m: M,
    v: Reals<T>,
    b: Seq<u8>,
    pos: int,
    scale: int,
    q: int,
    r: T,
)
    requires
        exact(m, v),
        0 <= pos,
        pos + 2 <= b.len(),
        -128 <= scale < 128,
        -128 <= q < 128,
        quant::scaled(m, b, pos, scale, q, r),
    ensures
        v.of(r) == half(v, b, pos) * (scale as real) * (q as real),
{
    let (d, ds) = choose|d: T, ds: T|
        {
            &&& #[trigger] quant::half_in(m, b, pos, d)
            &&& #[trigger] quant::times_int(m, d, scale, ds)
            &&& quant::times_int(m, ds, q, r)
        };
    lemma_two_bytes(b, pos);
    lemma_times(m, v, d, scale, ds);
    lemma_times(m, v, ds, q, r);
}

proof fn lemma_times<T: Scalar, M: Math<T>>(m: M, v: Reals<T>, d: T, n: int, r: T)
    requires
        exact(m, v),
        -128 <= n < 128,
        quant::times_int(m, d, n, r),
    ensures
        v.of(r) == v.of(d) * (n as real),
{
    let x = choose|x: T| #[trigger]
        arith::from_int(m, n as i32, x) && arith::multiplied(d, x, r);
    assert((n as i32) as real == n as real);
}

proof fn lemma_affine<T: Scalar, M: Math<T>>(
    m: M,
    v: Reals<T>,
    b: Seq<u8>,
    scale: int,
    min: int,
    q: int,
    r: T,
)
    requires
        exact(m, v),
        b.len() >= 4,
        0 <= scale < 64,
        0 <= min < 64,
        0 <= q < 32,
        quant::affine(m, b, scale, min, q, r),
    ensures
        v.of(r) == half(v, b, 0) * (scale as real) * (q as real) - half(v, b, 2) * (min as real),
{
    let (dsq, dmin, dm) = choose|dsq: T, dmin: T, dm: T|
        {
            &&& #[trigger] quant::scaled(m, b, 0, scale, q, dsq)
            &&& #[trigger] quant::half_in(m, b, 2, dmin)
            &&& #[trigger] quant::times_int(m, dmin, min, dm)
            &&& arith::subtracted(dsq, dm, r)
        };
    lemma_two_bytes(b, 2);
    lemma_scaled(m, v, b, 0, scale, q, dsq);
    lemma_times(m, v, dmin, min, dm);
}

/// Element `i` of a tensor of single-precision numbers is the one whose encoding is the four bytes
/// at `4 * i`, the least significant first.
pub proof fn law_single<T: Scalar, M: Math<T>>(m: M, v: Reals<T>, b: Seq<u8>, i: int, r: T)
    requires
        exact(m, v),
        0 <= i,
        4 * i + 4 <= b.len(),
        weights::element(m, 0, b, i, r),
    ensures
        v.of(r) == (v.bits)(
            (b[4 * i] + 256 * b[4 * i + 1] + 65536 * b[4 * i + 2] + 16777216 * b[4 * i + 3]) as u32,
        ),
{
    lemma_four_bytes(b, 4 * i);
}

/// Element `i` of a tensor of half-precision numbers is the one whose encoding is the two bytes at
/// `2 * i`, the less significant first.
pub proof fn law_half<T: Scalar, M: Math<T>>(m: M, v: Reals<T>, b: Seq<u8>, i: int, r: T)
    requires
        exact(m, v),
        0 <= i,
        2 * i + 2 <= b.len(),
        weights::element(m, 1, b, i, r),
    ensures
        v.of(r) == (v.half)((b[2 * i] + 256 * b[2 * i + 1]) as u16),
{
    lemma_two_bytes(b, 2 * i);
}

/// Element `i` of a tensor of truncated single-precision numbers is the single-precision number
/// whose more significant two bytes are those at `2 * i`, and whose others are zero.
pub proof fn law_brain<T: Scalar, M: Math<T>>(m: M, v: Reals<T>, b: Seq<u8>, i: int, r: T)
    requires
        exact(m, v),
        0 <= i,
        2 * i + 2 <= b.len(),
        weights::element(m, 30, b, i, r),
    ensures
        v.of(r) == (v.bits)((65536 * b[2 * i] + 16777216 * b[2 * i + 1]) as u32),
{
    lemma_two_bytes(b, 2 * i);
    assert(bytes::le_nat(b.subrange(2 * i, 2 * i + 2)) * 0x1_0000 == 65536 * b[2 * i] + 16777216
        * b[2 * i + 1]);
}

/// An element of a Q8_0 tensor is a signed byte times the half-precision number that its block
/// begins with. Blocks have 34 bytes and 32 elements.
pub proof fn law_q8_0<T: Scalar, M: Math<T>>(
    m: M,
    v: Reals<T>,
    b: Seq<u8>,
    k: int,
    e: int,
    r: T,
)
    requires
        exact(m, v),
        0 <= k,
        34 * k + 34 <= b.len(),
        0 <= e < 32,
        weights::element(m, 8, b, 32 * k + e, r),
    ensures
        v.of(r) == half(v, b, 34 * k) * ((if b[34 * k + 2 + e] < 128 {
            b[34 * k + 2 + e] as int
        } else {
            b[34 * k + 2 + e] - 256
        }) as real),
{
    assert((32 * k + e) / 32 == k && (32 * k + e) % 32 == e);
    let block = quant::block(b, 34, k);
    let (d, q) = choose|d: T, q: T|
        {
            &&& #[trigger] quant::half_in(m, block, 0, d)
            &&& #[trigger] arith::from_int(m, quant::signed(block[2 + e]) as i32, q)
            &&& arith::multiplied(q, d, r)
        };
    lemma_two_bytes(block, 0);
    let n = quant::signed(block[2 + e]);
    assert((n as i32) as real == n as real);
    crate::exact::lemma_times_swap(v.of(q), v.of(d));
}

/// An element of a Q4_K tensor is its number of four bits times the scale of its sub-block times
/// the first half-precision number of its block, less the minimum of its sub-block times the
/// second. Blocks have 144 bytes and 256 elements in sub-blocks of 32; `scales`, `mins` and
/// `quants` are what the block packs.
pub proof fn law_q4_k<T: Scalar, M: Math<T>>(
    m: M,
    v: Reals<T>,
    b: Seq<u8>,
    k: int,
    scales: Seq<int>,
    mins: Seq<int>,
    quants: Seq<int>,
    e: int,
    r: T,
)
    requires
        exact(m, v),
        0 <= k,
        144 * k + 144 <= b.len(),
        packs_k_scales(b.skip(144 * k), scales, mins),
        packs_pairs(b.skip(144 * k + 16), 32, quants, 16),
        0 <= e < 256,
        weights::element(m, 12, b, 256 * k + e, r),
    ensures
        v.of(r) == half(v, b, 144 * k) * (scales[e / 32] as real) * (quants[e] as real) - half(
            v,
            b,
            144 * k + 2,
        ) * (mins[e / 32] as real),
{
    assert((256 * k + e) / 256 == k && (256 * k + e) % 256 == e);
    let block = quant::block(b, 144, k);
    let (s, t) = (b.skip(144 * k), b.skip(144 * k + 16));
    assert forall|i: int| 0 <= i < 144 implies #[trigger] block[i] == b[144 * k + i] by {}
    lemma_k_scales(block, s, scales, mins, e / 32);
    assert forall|run: int, l: int| 0 <= run < 4 && 0 <= l < 32 implies #[trigger] block[16 + 32
        * run + l] == quants[64 * run + l] + 16 * quants[64 * run + 32 + l] by {
        assert(t[32 * run + l] == quants[64 * run + l] % 16 + 16 * (quants[64 * run + 32 + l] % 16));
        assert(0 <= quants[64 * run + l] < 16 && 0 <= quants[64 * run + 32 + l] < 16);
    }
    quant::law_q4_k_quants(block, quants, e);
    assert(0 <= scales[e / 32] < 64 && 0 <= mins[e / 32] < 64 && 0 <= quants[e] < 16);
    lemma_affine(m, v, block, scales[e / 32], mins[e / 32], quants[e], r);
}

/// An element of a Q5_K tensor is its number of five bits times the scale of its sub-block times
/// the first half-precision number of its block, less the minimum of its sub-block times the
/// second. Blocks have 176 bytes and 256 elements in sub-blocks of 32; `scales`, `mins` and
/// `quants` are what the block packs.
pub proof fn law_q5_k<T: Scalar, M: Math<T>>(
    m: M,
    v: Reals<T>,
    b: Seq<u8>,
    k: int,
    scales: Seq<int>,
    mins: Seq<int>,
    quants: Seq<int>,
    e: int,
    r: T,
)
    requires
        exact(m, v),
        0 <= k,
        176 * k + 176 <= b.len(),
        packs_k_scales(b.skip(176 * k), scales, mins),
        packs_fifth_bits(b.skip(176 * k + 16), quants),
        packs_pairs(b.skip(176 * k + 48), 32, quants, 32),
        0 <= e < 256,
        weights::element(m, 13, b, 256 * k + e, r),
    ensures
        v.of(r) == half(v, b, 176 * k) * (scales[e / 32] as real) * (quants[e] as real) - half(
            v,
            b,
            176 * k + 2,
        ) * (mins[e / 32] as real),
{
    assert((256 * k + e) / 256 == k && (256 * k + e) % 256 == e);
    let block = quant::block(b, 176, k);
    let (s, f, t) = (b.skip(176 * k), b.skip(176 * k + 16), b.skip(176 * k + 48));
    assert forall|i: int| 0 <= i < 176 implies #[trigger] block[i] == b[176 * k + i] by {}
    lemma_k_scales(block, s, scales, mins, e / 32);
    assert forall|run: int, l: int| 0 <= run < 4 && 0 <= l < 32 implies #[trigger] block[48 + 32
        * run + l] == quants[64 * run + l] % 16 + 16 * (quants[64 * run + 32 + l] % 16) by {
        assert(t[32 * run + l] == quants[64 * run + l] % 16 + 16 * (quants[64 * run + 32 + l] % 16));
    }
    assert forall|l: int| 0 <= l < 32 implies #[trigger] block[16 + l] == quants[l] / 16 + 2 * (
    quants[32 + l] / 16) + 4 * (quants[64 + l] / 16) + 8 * (quants[96 + l] / 16) + 16 * (quants[128
        + l] / 16) + 32 * (quants[160 + l] / 16) + 64 * (quants[192 + l] / 16) + 128 * (quants[224
        + l] / 16) by {
        assert(block[16 + l] == f[l]);
    }
    quant::law_q5_k_quants(block, quants, e);
    assert(0 <= scales[e / 32] < 64 && 0 <= mins[e / 32] < 64 && 0 <= quants[e] < 32);
    lemma_affine(m, v, block, scales[e / 32], mins[e / 32], quants[e], r);
}

/// An element of a Q6_K tensor is its number of six bits, less 32, times the scale of its sub-block
/// times the half-precision number of its block. Blocks have 210 bytes and 256 elements in
/// sub-blocks of sixteen, whose scales are signed bytes; `quants` are the numbers that the block
/// packs.
pub proof fn law_q6_k<T: Scalar, M: Math<T>>(
    m: M,
    v: Reals<T>,
    b: Seq<u8>,
    k: int,
    quants: Seq<int>,
    e: int,
    r: T,
)
    requires
        exact(m, v),
        0 <= k,
        210 * k + 210 <= b.len(),
        quants.len() == 256,
        forall|i: int| 0 <= i < 256 ==> 0 <= #[trigger] quants[i] < 64,
        forall|h: int, l: int|
            0 <= h < 2 && 0 <= l < 64 ==> #[trigger] b[210 * k + 64 * h + l] == quants[128 * h + l]
                % 16 + 16 * (quants[128 * h + 64 + l] % 16),
        forall|h: int, l: int|
            0 <= h < 2 && 0 <= l < 32 ==> #[trigger] b[210 * k + 128 + 32 * h + l] == quants[128 * h
                + l] / 16 + 4 * (quants[128 * h + 32 + l] / 16) + 16 * (quants[128 * h + 64 + l]
                / 16) + 64 * (quants[128 * h + 96 + l] / 16),
        0 <= e < 256,
        weights::element(m, 14, b, 256 * k + e, r),
    ensures
        v.of(r) == half(v, b, 210 * k + 208) * ((if b[210 * k + 192 + e / 16] < 128 {
            b[210 * k + 192 + e / 16] as int
        } else {
            b[210 * k + 192 + e / 16] - 256
        }) as real) * ((quants[e] - 32) as real),
{
    assert((256 * k + e) / 256 == k && (256 * k + e) % 256 == e);
    let block = quant::block(b, 210, k);
    assert forall|i: int| 0 <= i < 210 implies #[trigger] block[i] == b[210 * k + i] by {}
    assert forall|h: int, l: int| 0 <= h < 2 && 0 <= l < 64 implies #[trigger] block[64 * h + l]
        == quants[128 * h + l] % 16 + 16 * (quants[128 * h + 64 + l] % 16) by {
        assert(block[64 * h + l] == b[210 * k + 64 * h + l]);
    }
    assert forall|h: int, l: int| 0 <= h < 2 && 0 <= l < 32 implies #[trigger] block[128 + 32 * h
        + l] == quants[128 * h + l] / 16 + 4 * (quants[128 * h + 32 + l] / 16) + 16 * (quants[128
        * h + 64 + l] / 16) + 64 * (quants[128 * h + 96 + l] / 16) by {
        assert(block[128 + 32 * h + l] == b[210 * k + 128 + 32 * h + l]);
    }
    quant::law_q6_k_quants(block, quants, e);
    assert(0 <= quants[e] < 64);
    lemma_scaled(m, v, block, 208, quant::q6_k_scale(block, e), quants[e] - 32, r);
}

/// An element of an IQ4_XS tensor is the level of its number of four bits times the scale of its
/// sub-block, less 32, times the half-precision number that its block begins with. Blocks have 136
/// bytes and 256 elements in sub-blocks of 32; `scales` and `quants` are what the block packs.
pub proof fn law_iq4_xs<T: Scalar, M: Math<T>>(
    m: M,
    v: Reals<T>,
    b: Seq<u8>,
    k: int,
    scales: Seq<int>,
    quants: Seq<int>,
    e: int,
    r: T,
)
    requires
        exact(m, v),
        0 <= k,
        136 * k + 136 <= b.len(),
        scales.len() == 8,
        forall|i: int| 0 <= i < 8 ==> 0 <= #[trigger] scales[i] < 64,
        forall|i: int|
            0 <= i < 2 ==> #[trigger] b[136 * k + 2 + i] == scales[4 * i] / 16 + 4 * (scales[4 * i
                + 1] / 16) + 16 * (scales[4 * i + 2] / 16) + 64 * (scales[4 * i + 3] / 16),
        forall|i: int|
            0 <= i < 4 ==> #[trigger] b[136 * k + 4 + i] == scales[2 * i] % 16 + 16 * (scales[2 * i
                + 1] % 16),
        packs_pairs(b.skip(136 * k + 8), 16, quants, 16),
        0 <= e < 256,
        weights::element(m, 23, b, 256 * k + e, r),
    ensures
        v.of(r) == half(v, b, 136 * k) * ((scales[e / 32] - 32) as real) * (quant::iq4_level(
            quants[e],
        ) as real),
{
    assert((256 * k + e) / 256 == k && (256 * k + e) % 256 == e);
    let block = quant::block(b, 136, k);
    let t = b.skip(136 * k + 8);
    assert forall|i: int| 0 <= i < 136 implies #[trigger] block[i] == b[136 * k + i] by {}
    assert forall|i: int| 0 <= i < 2 implies #[trigger] block[2 + i] == scales[4 * i] / 16 + 4 * (
    scales[4 * i + 1] / 16) + 16 * (scales[4 * i + 2] / 16) + 64 * (scales[4 * i + 3] / 16) by {
        assert(block[2 + i] == b[136 * k + 2 + i]);
    }
    assert forall|i: int| 0 <= i < 4 implies #[trigger] block[4 + i] == scales[2 * i] % 16 + 16 * (
    scales[2 * i + 1] % 16) by {
        assert(block[4 + i] == b[136 * k + 4 + i]);
    }
    quant::law_iq4_xs_scales(block, scales, e / 32);
    assert forall|s: int, l: int| 0 <= s < 8 && 0 <= l < 16 implies #[trigger] block[8 + 16 * s + l]
        == quants[32 * s + l] + 16 * quants[32 * s + 16 + l] by {
        assert(t[16 * s + l] == quants[32 * s + l] % 16 + 16 * (quants[32 * s + 16 + l] % 16));
        assert(0 <= quants[32 * s + l] < 16 && 0 <= quants[32 * s + 16 + l] < 16);
    }
    quant::law_iq4_xs_levels(block, quants, e);
    assert(0 <= scales[e / 32] < 64 && 0 <= quants[e] < 16);
    lemma_scaled(m, v, block, 0, scales[e / 32] - 32, quant::iq4_level(quants[e]), r);
}

/// A block of a Q4_K or Q5_K tensor packs eight scales and eight minima of six bits each: the first
/// four of both in bytes of their own, and of the last four the two high bits above these and the
/// four low bits of both together in a byte.
pub open spec fn packs_k_scales(b: Seq<u8>, scales: Seq<int>, mins: Seq<int>) -> bool {
    &&& scales.len() == 8
    &&& mins.len() == 8
    &&& forall|i: int| 0 <= i < 8 ==> 0 <= #[trigger] scales[i] < 64
    &&& forall|i: int| 0 <= i < 8 ==> 0 <= #[trigger] mins[i] < 64
    &&& forall|i: int|
        0 <= i < 4 ==> #[trigger] b[4 + i] == scales[i] + 64 * (scales[4 + i] / 16)
    &&& forall|i: int| 0 <= i < 4 ==> #[trigger] b[8 + i] == mins[i] + 64 * (mins[4 + i] / 16)
    &&& forall|i: int|
        0 <= i < 4 ==> #[trigger] b[12 + i] == scales[4 + i] % 16 + 16 * (mins[4 + i] % 16)
}

/// Bytes pack the low four bits of 256 numbers below `limit`: each byte those of two numbers that
/// stand `step` places apart.
pub open spec fn packs_pairs(b: Seq<u8>, step: int, quants: Seq<int>, limit: int) -> bool {
    &&& quants.len() == 256
    &&& forall|i: int| 0 <= i < 256 ==> 0 <= #[trigger] quants[i] < limit
    &&& forall|run: int, l: int|
        0 <= run && 0 <= l < step && 2 * step * run + 2 * step <= 256 ==> #[trigger] b[step * run
            + l] == quants[2 * step * run + l] % 16 + 16 * (quants[2 * step * run + step + l] % 16)
}

/// Bytes pack the fifth bits of 256 numbers: each byte those of eight numbers that stand 32 places
/// apart.
pub open spec fn packs_fifth_bits(b: Seq<u8>, quants: Seq<int>) -> bool {
    forall|l: int|
        0 <= l < 32 ==> #[trigger] b[l] == quants[l] / 16 + 2 * (quants[32 + l] / 16) + 4 * (quants[
        64 + l] / 16) + 8 * (quants[96 + l] / 16) + 16 * (quants[128 + l] / 16) + 32 * (quants[160
            + l] / 16) + 64 * (quants[192 + l] / 16) + 128 * (quants[224 + l] / 16)
}

proof fn lemma_k_scales(
    block: Seq<u8>,
    b: Seq<u8>,
    scales: Seq<int>,
    mins: Seq<int>,
    s: int,
)
    requires
        block.len() >= 16,
        b.len() >= 16,
        forall|i: int| 0 <= i < 16 ==> #[trigger] block[i] == b[i],
        packs_k_scales(b, scales, mins),
        0 <= s < 8,
    ensures
        quant::k_scale(block, s) == scales[s],
        quant::k_min(block, s) == mins[s],
{
    assert forall|i: int| 0 <= i < 4 implies #[trigger] block[4 + i] == scales[i] + 64 * (scales[4
        + i] / 16) by {
        assert(block[4 + i] == b[4 + i]);
    }
    assert forall|i: int| 0 <= i < 4 implies #[trigger] block[8 + i] == mins[i] + 64 * (mins[4 + i]
        / 16) by {
        assert(block[8 + i] == b[8 + i]);
    }
    assert forall|i: int| 0 <= i < 4 implies #[trigger] block[12 + i] == scales[4 + i] % 16 + 16 * (
    mins[4 + i] % 16) by {
        assert(block[12 + i] == b[12 + i]);
    }
    quant::law_k_scales(block, scales, mins, s);
}

} // verus!
