//! Block-quantised weight formats.
//!
//! A quantised tensor is a sequence of blocks of a fixed number of bytes, each of which encodes
//! a fixed number of elements. For every format a relation says what the element at a given
//! place of a block may decode to, over the integers that the block packs.

use crate::arith::{self, Math, Scalar};
use crate::bytes::{self, u16_at};
use crate::shape;
use crate::tensor::Tensor;
use vstd::arithmetic::power2::pow2;
use vstd::prelude::*;
use vstd::slice::slice_subrange;

verus! {

/// The low four bits.
pub open spec fn low_nibble(byte: u8) -> int {
    byte as int % 16
}

/// The high four bits.
pub open spec fn high_nibble(byte: u8) -> int {
    byte as int / 16
}

/// The low four bits for an even `i`, the high four bits for an odd one.
pub open spec fn nibble(byte: u8, i: int) -> int {
    if i % 2 == 0 {
        low_nibble(byte)
    } else {
        high_nibble(byte)
    }
}

/// Bit `k`, counted from the least significant.
pub open spec fn bit(byte: u8, k: int) -> int {
    (byte as nat / pow2(k as nat)) as int % 2
}

/// Bits `2 * k` and `2 * k + 1`, counted from the least significant.
pub open spec fn bit_pair(byte: u8, k: int) -> int {
    (byte as nat / pow2((2 * k) as nat)) as int % 4
}

/// The byte as a signed number.
pub open spec fn signed(byte: u8) -> int {
    if byte < 128 {
        byte as int
    } else {
        byte - 256
    }
}

/// The half-precision number at `pos`.
pub open spec fn half_in<T, M: Math<T>>(m: M, b: Seq<u8>, pos: int, r: T) -> bool {
    arith::from_half(m, bytes::le_nat(b.subrange(pos, pos + 2)) as u16, r)
}

/// `r` is a value of `d * n`.
pub open spec fn times_int<T: Scalar, M: Math<T>>(m: M, d: T, n: int, r: T) -> bool {
    exists|x: T| #[trigger] arith::from_int(m, n as i32, x) && arith::multiplied(d, x, r)
}

/// `r` is a value of `(d * scale) * q`, with `d` the half-precision number at `pos`.
pub open spec fn scaled<T: Scalar, M: Math<T>>(
    m: M,
    b: Seq<u8>,
    pos: int,
    scale: int,
    q: int,
    r: T,
) -> bool {
    exists|d: T, ds: T|
        {
            &&& #[trigger] half_in(m, b, pos, d)
            &&& #[trigger] times_int(m, d, scale, ds)
            &&& times_int(m, ds, q, r)
        }
}

/// `r` is a value of `(d * scale) * q - dmin * min`, with `d` and `dmin` the half-precision
/// numbers that the block begins with.
pub open spec fn affine<T: Scalar, M: Math<T>>(
    m: M,
    b: Seq<u8>,
    scale: int,
    min: int,
    q: int,
    r: T,
) -> bool {
    exists|dsq: T, dmin: T, dm: T|
        {
            &&& #[trigger] scaled(m, b, 0, scale, q, dsq)
            &&& #[trigger] half_in(m, b, 2, dmin)
            &&& #[trigger] times_int(m, dmin, min, dm)
            &&& arith::subtracted(dsq, dm, r)
        }
}

/// Element `e` of a Q8_0 block: a half-precision scale, then 32 signed bytes.
pub open spec fn q8_0_at<T: Scalar, M: Math<T>>(m: M, b: Seq<u8>, e: int, r: T) -> bool {
    exists|d: T, q: T|
        {
            &&& #[trigger] half_in(m, b, 0, d)
            &&& #[trigger] arith::from_int(m, signed(b[2 + e]) as i32, q)
            &&& arith::multiplied(q, d, r)
        }
}

/// The scale of sub-block `s` of a Q4_K or Q5_K block: six bits, for the later half of the
/// sub-blocks parted into four low bits and two high bits.
pub open spec fn k_scale(b: Seq<u8>, s: int) -> int {
    if s < 4 {
        b[4 + s] as int % 64
    } else {
        b[8 + s] as int % 16 + 16 * (b[s] as int / 64)
    }
}

/// The minimum of sub-block `s` of a Q4_K or Q5_K block, packed in the same way.
pub open spec fn k_min(b: Seq<u8>, s: int) -> int {
    if s < 4 {
        b[8 + s] as int % 64
    } else {
        b[8 + s] as int / 16 + 16 * (b[4 + s] as int / 64)
    }
}

/// The four bits of element `e` of a Q4_K block: of each run of 64 elements, the first half is
/// in the low bits of 32 bytes, the second half in their high bits.
pub open spec fn q4_k_quant(b: Seq<u8>, e: int) -> int {
    nibble(b[16 + 32 * (e / 64) + e % 32], e / 32)
}

/// Element `e` of a Q4_K block: two half-precision numbers, twelve bytes of packed scales and
/// minima of eight sub-blocks, and 256 numbers of four bits.
pub open spec fn q4_k_at<T: Scalar, M: Math<T>>(m: M, b: Seq<u8>, e: int, r: T) -> bool {
    affine(m, b, k_scale(b, e / 32), k_min(b, e / 32), q4_k_quant(b, e), r)
}

/// The five bits of element `e` of a Q5_K block: the four low ones as in a Q4_K block, the fifth in
/// the bit of its sub-block of one of 32 bytes.
pub open spec fn q5_k_quant(b: Seq<u8>, e: int) -> int {
    nibble(b[48 + 32 * (e / 64) + e % 32], e / 32) + 16 * bit(b[16 + e % 32], e / 32)
}

/// Element `e` of a Q5_K block: two half-precision numbers, twelve bytes of packed scales and
/// minima of eight sub-blocks, 256 high bits, and 256 numbers of four bits.
pub open spec fn q5_k_at<T: Scalar, M: Math<T>>(m: M, b: Seq<u8>, e: int, r: T) -> bool {
    affine(m, b, k_scale(b, e / 32), k_min(b, e / 32), q5_k_quant(b, e), r)
}

/// The six bits of element `e` of a Q6_K block, less 32. Each half of the block has four quarters
/// of 32 elements; those at place `l` of the quarters have their low bits in the bytes `l` and
/// `l + 32`, and their high bits in one byte.
pub open spec fn q6_k_quant(b: Seq<u8>, e: int) -> int {
    let (h, k, l) = (e / 128, e % 128 / 32, e % 32);
    nibble(b[64 * h + l + 32 * (k % 2)], k / 2) + 16 * bit_pair(b[128 + 32 * h + l], k) - 32
}

/// The scale of element `e` of a Q6_K block.
pub open spec fn q6_k_scale(b: Seq<u8>, e: int) -> int {
    let (h, k, l) = (e / 128, e % 128 / 32, e % 32);
    signed(b[192 + 8 * h + l / 16 + 2 * k])
}

/// Element `e` of a Q6_K block: 256 numbers of four low bits and two high bits, sixteen signed
/// scales, and a half-precision number.
pub open spec fn q6_k_at<T: Scalar, M: Math<T>>(m: M, b: Seq<u8>, e: int, r: T) -> bool {
    scaled(m, b, 208, q6_k_scale(b, e), q6_k_quant(b, e), r)
}

/// The sixteen levels of the IQ4 formats.
pub open spec fn iq4_level(n: int) -> int {
    seq![
        -127int,
        -104,
        -83,
        -65,
        -49,
        -35,
        -22,
        -10,
        1,
        13,
        25,
        38,
        53,
        69,
        89,
        113,
    ][n]
}

/// The scale of sub-block `s` of an IQ4_XS block: four low bits and two high bits, less 32.
pub open spec fn iq4_xs_scale(b: Seq<u8>, s: int) -> int {
    nibble(b[4 + s / 2], s) + 16 * bit_pair(b[2 + s / 4], s % 4) - 32
}

/// The level of element `e` of an IQ4_XS block: of each sub-block, the first half is in the low
/// bits of sixteen bytes, the second half in their high bits.
pub open spec fn iq4_xs_level(b: Seq<u8>, e: int) -> int {
    iq4_level(nibble(b[8 + 16 * (e / 32) + e % 16], e % 32 / 16))
}

/// Element `e` of an IQ4_XS block: a half-precision number, the high and the low bits of eight
/// scales, and 256 levels of four bits.
pub open spec fn iq4_xs_at<T: Scalar, M: Math<T>>(m: M, b: Seq<u8>, e: int, r: T) -> bool {
    scaled(m, b, 0, iq4_xs_scale(b, e / 32), iq4_xs_level(b, e), r)
}

/// The integers that the blocks pack have as many bits as their formats say: scales and minima
/// six, quantised elements four to six, and in two formats 32 is taken off.
pub proof fn law_packed_ranges(b: Seq<u8>, s: int, e: int)
    requires
        0 <= s < 8,
        0 <= e < 256,
    ensures
        0 <= k_scale(b, s) < 64,
        0 <= k_min(b, s) < 64,
        0 <= q4_k_quant(b, e) < 16,
        0 <= q5_k_quant(b, e) < 32,
        -32 <= q6_k_quant(b, e) < 32,
        -128 <= q6_k_scale(b, e) < 128,
        -32 <= iq4_xs_scale(b, s) < 32,
{
}

/// Scales and minima of six bits each come out of a Q4_K or Q5_K block as they were packed: the
/// first four of both in bytes of their own, and of the last four the two high bits above these
/// and the four low bits of both together in a byte.
pub proof fn law_k_scales(b: Seq<u8>, scales: Seq<int>, mins: Seq<int>, s: int)
    requires
        b.len() >= 16,
        scales.len() == 8,
        mins.len() == 8,
        forall|i: int| 0 <= i < 8 ==> 0 <= #[trigger] scales[i] < 64,
        forall|i: int| 0 <= i < 8 ==> 0 <= #[trigger] mins[i] < 64,
        forall|i: int| 0 <= i < 4 ==> #[trigger] b[4 + i] == scales[i] + 64 * (scales[4 + i] / 16),
        forall|i: int| 0 <= i < 4 ==> #[trigger] b[8 + i] == mins[i] + 64 * (mins[4 + i] / 16),
        forall|i: int|
            0 <= i < 4 ==> #[trigger] b[12 + i] == scales[4 + i] % 16 + 16 * (mins[4 + i] % 16),
        0 <= s < 8,
    ensures
        k_scale(b, s) == scales[s],
        k_min(b, s) == mins[s],
{
    let i = s % 4;
    assert(0 <= scales[i] < 64 && 0 <= scales[4 + i] < 64);
    assert(0 <= mins[i] < 64 && 0 <= mins[4 + i] < 64);
    assert(b[4 + i] == scales[i] + 64 * (scales[4 + i] / 16));
    assert(b[8 + i] == mins[i] + 64 * (mins[4 + i] / 16));
    assert(b[12 + i] == scales[4 + i] % 16 + 16 * (mins[4 + i] % 16));
    if s >= 4 {
        assert(s == 4 + i);
    }
}

/// Numbers of four bits come out of a Q4_K block as they were packed: each byte holds two, which
/// stand 32 places apart.
pub proof fn law_q4_k_quants(b: Seq<u8>, quants: Seq<int>, e: int)
    requires
        b.len() >= 144,
        quants.len() == 256,
        forall|i: int| 0 <= i < 256 ==> 0 <= #[trigger] quants[i] < 16,
        forall|run: int, l: int|
            0 <= run < 4 && 0 <= l < 32 ==> #[trigger] b[16 + 32 * run + l] == quants[64 * run + l]
                + 16 * quants[64 * run + 32 + l],
        0 <= e < 256,
    ensures
        q4_k_quant(b, e) == quants[e],
{
    let (run, l) = (e / 64, e % 32);
    assert(b[16 + 32 * run + l] == quants[64 * run + l] + 16 * quants[64 * run + 32 + l]);
    assert(0 <= quants[64 * run + l] < 16 && 0 <= quants[64 * run + 32 + l] < 16);
    if e / 32 % 2 == 0 {
        assert(e == 64 * run + l);
    } else {
        assert(e == 64 * run + 32 + l);
    }
}

/// Numbers of five bits come out of a Q5_K block as they were packed: the low four bits as in a
/// Q4_K block, and the fifth bits of the eight numbers that stand 32 places apart in one byte.
pub proof fn law_q5_k_quants(b: Seq<u8>, quants: Seq<int>, e: int)
    requires
        b.len() >= 176,
        quants.len() == 256,
        forall|i: int| 0 <= i < 256 ==> 0 <= #[trigger] quants[i] < 32,
        forall|l: int|
            0 <= l < 32 ==> #[trigger] b[16 + l] == quants[l] / 16 + 2 * (quants[32 + l] / 16) + 4 * (
            quants[64 + l] / 16) + 8 * (quants[96 + l] / 16) + 16 * (quants[128 + l] / 16) + 32 * (
            quants[160 + l] / 16) + 64 * (quants[192 + l] / 16) + 128 * (quants[224 + l] / 16),
        forall|run: int, l: int|
            0 <= run < 4 && 0 <= l < 32 ==> #[trigger] b[48 + 32 * run + l] == quants[64 * run + l]
                % 16 + 16 * (quants[64 * run + 32 + l] % 16),
        0 <= e < 256,
    ensures
        q5_k_quant(b, e) == quants[e],
{
    let (run, l, s) = (e / 64, e % 32, e / 32);
    assert(b[48 + 32 * run + l] == quants[64 * run + l] % 16 + 16 * (quants[64 * run + 32 + l]
        % 16));
    assert(0 <= quants[64 * run + l] < 32 && 0 <= quants[64 * run + 32 + l] < 32);
    if s % 2 == 0 {
        assert(e == 64 * run + l);
    } else {
        assert(e == 64 * run + 32 + l);
    }
    assert(b[16 + l] == quants[l] / 16 + 2 * (quants[32 + l] / 16) + 4 * (quants[64 + l] / 16) + 8
        * (quants[96 + l] / 16) + 16 * (quants[128 + l] / 16) + 32 * (quants[160 + l] / 16) + 64 * (
    quants[192 + l] / 16) + 128 * (quants[224 + l] / 16));
    lemma_bits(
        b[16 + l],
        quants[l] / 16,
        quants[32 + l] / 16,
        quants[64 + l] / 16,
        quants[96 + l] / 16,
        quants[128 + l] / 16,
        quants[160 + l] / 16,
        quants[192 + l] / 16,
        quants[224 + l] / 16,
    );
    assert(e == 32 * s + l);
    assert(bit(b[16 + l], s) == quants[e] / 16);
}

proof fn lemma_bits(
    byte: u8,
    b0: int,
    b1: int,
    b2: int,
    b3: int,
    b4: int,
    b5: int,
    b6: int,
    b7: int,
)
    requires
        0 <= b0 < 2,
        0 <= b1 < 2,
        0 <= b2 < 2,
        0 <= b3 < 2,
        0 <= b4 < 2,
        0 <= b5 < 2,
        0 <= b6 < 2,
        0 <= b7 < 2,
        byte == b0 + 2 * b1 + 4 * b2 + 8 * b3 + 16 * b4 + 32 * b5 + 64 * b6 + 128 * b7,
    ensures
        bit(byte, 0) == b0,
        bit(byte, 1) == b1,
        bit(byte, 2) == b2,
        bit(byte, 3) == b3,
        bit(byte, 4) == b4,
        bit(byte, 5) == b5,
        bit(byte, 6) == b6,
        bit(byte, 7) == b7,
{
    vstd::arithmetic::power2::lemma2_to64();
    let n = byte as nat;
    assert(bit(byte, 0) == n as int / 1 % 2);
    assert(bit(byte, 1) == n as int / 2 % 2);
    assert(bit(byte, 2) == n as int / 4 % 2);
    assert(bit(byte, 3) == n as int / 8 % 2);
    assert(bit(byte, 4) == n as int / 16 % 2);
    assert(bit(byte, 5) == n as int / 32 % 2);
    assert(bit(byte, 6) == n as int / 64 % 2);
    assert(bit(byte, 7) == n as int / 128 % 2);
}

proof fn lemma_bit_pairs(byte: u8, b0: int, b1: int, b2: int, b3: int)
    requires
        0 <= b0 < 4,
        0 <= b1 < 4,
        0 <= b2 < 4,
        0 <= b3 < 4,
        byte == b0 + 4 * b1 + 16 * b2 + 64 * b3,
    ensures
        bit_pair(byte, 0) == b0,
        bit_pair(byte, 1) == b1,
        bit_pair(byte, 2) == b2,
        bit_pair(byte, 3) == b3,
{
    vstd::arithmetic::power2::lemma2_to64();
    let n = byte as nat;
    assert(bit_pair(byte, 0) == n as int / 1 % 4);
    assert(bit_pair(byte, 1) == n as int / 4 % 4);
    assert(bit_pair(byte, 2) == n as int / 16 % 4);
    assert(bit_pair(byte, 3) == n as int / 64 % 4);
}

/// Numbers of six bits come out of a Q6_K block as they were packed, less 32: of each half of the
/// block, the low four bits of two numbers that stand 64 places apart are in one byte, and the
/// high two bits of four numbers that stand 32 places apart are in one byte.
pub proof fn law_q6_k_quants(b: Seq<u8>, quants: Seq<int>, e: int)
    requires
        b.len() >= 210,
        quants.len() == 256,
        forall|i: int| 0 <= i < 256 ==> 0 <= #[trigger] quants[i] < 64,
        forall|half: int, l: int|
            0 <= half < 2 && 0 <= l < 64 ==> #[trigger] b[64 * half + l] == quants[128 * half + l]
                % 16 + 16 * (quants[128 * half + 64 + l] % 16),
        forall|half: int, l: int|
            0 <= half < 2 && 0 <= l < 32 ==> #[trigger] b[128 + 32 * half + l] == quants[128 * half
                + l] / 16 + 4 * (quants[128 * half + 32 + l] / 16) + 16 * (quants[128 * half + 64
                + l] / 16) + 64 * (quants[128 * half + 96 + l] / 16),
        0 <= e < 256,
    ensures
        q6_k_quant(b, e) == quants[e] - 32,
        q6_k_scale(b, e) == signed(b[192 + e / 16]),
{
    let (h, k, l) = (e / 128, e % 128 / 32, e % 32);
    assert(e == 128 * h + 32 * k + l);
    let n = l + 32 * (k % 2);
    assert(b[64 * h + n] == quants[128 * h + n] % 16 + 16 * (quants[128 * h + 64 + n] % 16));
    assert(0 <= quants[128 * h + l] < 64 && 0 <= quants[128 * h + 32 + l] < 64);
    assert(0 <= quants[128 * h + 64 + l] < 64 && 0 <= quants[128 * h + 96 + l] < 64);
    assert(b[128 + 32 * h + l] == quants[128 * h + l] / 16 + 4 * (quants[128 * h + 32 + l] / 16)
        + 16 * (quants[128 * h + 64 + l] / 16) + 64 * (quants[128 * h + 96 + l] / 16));
    lemma_bit_pairs(
        b[128 + 32 * h + l],
        quants[128 * h + l] / 16,
        quants[128 * h + 32 + l] / 16,
        quants[128 * h + 64 + l] / 16,
        quants[128 * h + 96 + l] / 16,
    );
    assert(bit_pair(b[128 + 32 * h + l], k) == quants[e] / 16);
    assert(nibble(b[64 * h + n], k / 2) == quants[e] % 16);
    assert(e / 16 == 8 * h + 2 * k + l / 16);
}

/// Scales of six bits come out of an IQ4_XS block as they were packed, less 32: the low four bits
/// of two of them in a byte, and the high two bits of four of them in a byte.
pub proof fn law_iq4_xs_scales(b: Seq<u8>, scales: Seq<int>, s: int)
    requires
        b.len() >= 136,
        scales.len() == 8,
        forall|i: int| 0 <= i < 8 ==> 0 <= #[trigger] scales[i] < 64,
        forall|i: int|
            0 <= i < 2 ==> #[trigger] b[2 + i] == scales[4 * i] / 16 + 4 * (scales[4 * i + 1] / 16)
                + 16 * (scales[4 * i + 2] / 16) + 64 * (scales[4 * i + 3] / 16),
        forall|i: int|
            0 <= i < 4 ==> #[trigger] b[4 + i] == scales[2 * i] % 16 + 16 * (scales[2 * i + 1] % 16),
        0 <= s < 8,
    ensures
        iq4_xs_scale(b, s) == scales[s] - 32,
{
    let (i, g) = (s / 2, s / 4);
    assert(b[4 + i] == scales[2 * i] % 16 + 16 * (scales[2 * i + 1] % 16));
    assert(b[2 + g] == scales[4 * g] / 16 + 4 * (scales[4 * g + 1] / 16) + 16 * (scales[4 * g + 2]
        / 16) + 64 * (scales[4 * g + 3] / 16));
    lemma_bit_pairs(
        b[2 + g],
        scales[4 * g] / 16,
        scales[4 * g + 1] / 16,
        scales[4 * g + 2] / 16,
        scales[4 * g + 3] / 16,
    );
    assert(s == 4 * g + s % 4);
    assert(s == 2 * i + s % 2);
    assert(bit_pair(b[2 + g], s % 4) == scales[s] / 16);
}

/// Numbers of levels come out of an IQ4_XS block as they were packed: each byte holds two, which
/// stand sixteen places apart.
pub proof fn law_iq4_xs_levels(b: Seq<u8>, quants: Seq<int>, e: int)
    requires
        b.len() >= 136,
        quants.len() == 256,
        forall|i: int| 0 <= i < 256 ==> 0 <= #[trigger] quants[i] < 16,
        forall|s: int, l: int|
            0 <= s < 8 && 0 <= l < 16 ==> #[trigger] b[8 + 16 * s + l] == quants[32 * s + l] + 16
                * quants[32 * s + 16 + l],
        0 <= e < 256,
    ensures
        iq4_xs_level(b, e) == iq4_level(quants[e]),
{
    let (s, l) = (e / 32, e % 16);
    assert(b[8 + 16 * s + l] == quants[32 * s + l] + 16 * quants[32 * s + 16 + l]);
    assert(0 <= quants[32 * s + l] < 16 && 0 <= quants[32 * s + 16 + l] < 16);
    if e % 32 / 16 == 0 {
        assert(e == 32 * s + l);
    } else {
        assert(e == 32 * s + 16 + l);
    }
}

/// The levels of the IQ4 formats grow with their numbers, and fit a signed byte.
pub proof fn law_iq4_levels(a: int, b: int)
    requires
        0 <= a < b < 16,
    ensures
        -128 < iq4_level(a) < iq4_level(b) < 128,
{
}

/// Block `k` of `size` bytes.
pub open spec fn block(b: Seq<u8>, size: int, k: int) -> Seq<u8> {
    b.subrange(k * size, k * size + size)
}

/// The elements that blocks of `size` bytes and `count` elements each decode to, one block behind
/// the other; `at` relates a block, a place in it, and the values of the element there.
pub open spec fn blockwise<T>(
    at: spec_fn(Seq<u8>, int, T) -> bool,
    size: int,
    count: int,
    b: Seq<u8>,
    elems: Seq<T>,
) -> bool {
    &&& elems.len() == b.len() as int / size * count
    &&& forall|i: int|
        0 <= i < elems.len() ==> at(block(b, size, i / count), i % count, #[trigger] elems[i])
}

/// `elems` holds values of the elements of Q8_0 blocks.
pub open spec fn q8_0_decoded<T: Scalar, M: Math<T>>(m: M, b: Seq<u8>, elems: Seq<T>) -> bool {
    blockwise(|k: Seq<u8>, e: int, r: T| q8_0_at(m, k, e, r), 34, 32, b, elems)
}

/// `elems` holds values of the elements of Q4_K blocks.
pub open spec fn q4_k_decoded<T: Scalar, M: Math<T>>(m: M, b: Seq<u8>, elems: Seq<T>) -> bool {
    blockwise(|k: Seq<u8>, e: int, r: T| q4_k_at(m, k, e, r), 144, 256, b, elems)
}

/// `elems` holds values of the elements of Q5_K blocks.
pub open spec fn q5_k_decoded<T: Scalar, M: Math<T>>(m: M, b: Seq<u8>, elems: Seq<T>) -> bool {
    blockwise(|k: Seq<u8>, e: int, r: T| q5_k_at(m, k, e, r), 176, 256, b, elems)
}

/// `elems` holds values of the elements of Q6_K blocks.
pub open spec fn q6_k_decoded<T: Scalar, M: Math<T>>(m: M, b: Seq<u8>, elems: Seq<T>) -> bool {
    blockwise(|k: Seq<u8>, e: int, r: T| q6_k_at(m, k, e, r), 210, 256, b, elems)
}

/// `elems` holds values of the elements of IQ4_XS blocks.
pub open spec fn iq4_xs_decoded<T: Scalar, M: Math<T>>(m: M, b: Seq<u8>, elems: Seq<T>) -> bool {
    blockwise(|k: Seq<u8>, e: int, r: T| iq4_xs_at(m, k, e, r), 136, 256, b, elems)
}

/// Blocks behind blocks: each is a block of the one or of the other.
pub proof fn law_block_apart(a: Seq<u8>, b: Seq<u8>, size: int, k: int)
    requires
        size > 0,
        a.len() as int % size == 0,
        0 <= k,
        k * size + size <= a.len() + b.len(),
    ensures
        block(a + b, size, k) == if k < a.len() as int / size {
            block(a, size, k)
        } else {
            block(b, size, k - a.len() as int / size)
        },
{
    let (len, n) = (a.len() as int, a.len() as int / size);
    vstd::arithmetic::div_mod::lemma_fundamental_div_mod(len, size);
    assert(0 <= n && len == n * size) by (nonlinear_arith)
        requires
            len == size * n + 0,
            len >= 0,
            size > 0,
    ;
    assert(0 <= k * size) by (nonlinear_arith)
        requires
            k >= 0,
            size > 0,
    ;
    if k < n {
        assert(k * size + size <= n * size) by (nonlinear_arith)
            requires
                k < n,
                size > 0,
        ;
        assert(block(a + b, size, k) =~= block(a, size, k));
    } else {
        assert(n * size <= k * size && (k - n) * size == k * size - n * size) by (nonlinear_arith)
            requires
                n <= k,
                size > 0,
        ;
        assert(block(a + b, size, k) =~= block(b, size, k - n));
    }
}

/// The numbers of elements of whole blocks behind whole blocks.
proof fn lemma_counts(a: Seq<u8>, b: Seq<u8>, size: int, count: int)
    requires
        size > 0,
        count > 0,
        a.len() as int % size == 0,
        b.len() as int % size == 0,
    ensures
        0 <= a.len() as int / size * count,
        0 <= b.len() as int / size * count,
        (a + b).len() as int / size * count == a.len() as int / size * count + b.len() as int
            / size * count,
{
    let (p, q) = (a.len() as int / size, b.len() as int / size);
    vstd::arithmetic::div_mod::lemma_fundamental_div_mod(a.len() as int, size);
    vstd::arithmetic::div_mod::lemma_fundamental_div_mod(b.len() as int, size);
    assert(p * size == size * p && q * size == size * q && (p + q) * size == p * size + q * size
        && (p + q) * count == p * count + q * count) by (nonlinear_arith);
    vstd::arithmetic::div_mod::lemma_fundamental_div_mod_converse(
        (a + b).len() as int,
        size,
        p + q,
        0,
    );
    assert(0 <= p && 0 <= q && 0 <= p * count && 0 <= q * count) by (nonlinear_arith)
        requires
            p * size == a.len(),
            q * size == b.len(),
            size > 0,
            count > 0,
    ;
}

/// The block of element `i` of the first of two runs of blocks.
proof fn lemma_first_run(a: Seq<u8>, b: Seq<u8>, size: int, count: int, i: int)
    requires
        size > 0,
        count > 0,
        a.len() as int % size == 0,
        0 <= i < a.len() as int / size * count,
    ensures
        block(a + b, size, i / count) == block(a, size, i / count),
{
    let p = a.len() as int / size;
    vstd::arithmetic::div_mod::lemma_fundamental_div_mod(a.len() as int, size);
    assert(p * size == size * p) by (nonlinear_arith);
    shape::lemma_uncell(i, p, count);
    shape::lemma_cell(i / count, 0, p, size);
    law_block_apart(a, b, size, i / count);
}

/// The block of element `i` of the second of two runs of blocks.
proof fn lemma_second_run(a: Seq<u8>, b: Seq<u8>, size: int, count: int, i: int)
    requires
        size > 0,
        count > 0,
        a.len() as int % size == 0,
        b.len() as int % size == 0,
        0 <= i < b.len() as int / size * count,
    ensures
        block(a + b, size, (a.len() as int / size * count + i) / count) == block(
            b,
            size,
            i / count,
        ),
        (a.len() as int / size * count + i) % count == i % count,
{
    let (p, q) = (a.len() as int / size, b.len() as int / size);
    vstd::arithmetic::div_mod::lemma_fundamental_div_mod(a.len() as int, size);
    vstd::arithmetic::div_mod::lemma_fundamental_div_mod(b.len() as int, size);
    assert(p * size == size * p && q * size == size * q) by (nonlinear_arith);
    shape::lemma_uncell(i, q, count);
    shape::lemma_cell(i / count, 0, q, size);
    let (j, k) = (i / count, p + i / count);
    assert(k * count == p * count + j * count && k * size == p * size + j * size)
        by (nonlinear_arith)
        requires
            k == p + j,
    ;
    vstd::arithmetic::div_mod::lemma_fundamental_div_mod_converse(
        p * count + i,
        count,
        k,
        i % count,
    );
    law_block_apart(a, b, size, k);
}

/// Blocks decode on their own and in order: what two runs of whole blocks decode to, one behind
/// the other, is what the first decodes to and behind it what the second does.
pub proof fn law_blocks_apart<T>(
    at: spec_fn(Seq<u8>, int, T) -> bool,
    size: int,
    count: int,
    a: Seq<u8>,
    b: Seq<u8>,
    x: Seq<T>,
    y: Seq<T>,
)
    requires
        size > 0,
        count > 0,
        a.len() as int % size == 0,
        b.len() as int % size == 0,
        x.len() == a.len() as int / size * count,
    ensures
        blockwise(at, size, count, a + b, x + y) <==> blockwise(at, size, count, a, x)
            && blockwise(at, size, count, b, y),
{
    lemma_counts(a, b, size, count);
    let n = x.len() as int;
    let (ab, xy) = (a + b, x + y);
    if blockwise(at, size, count, ab, xy) {
        assert forall|i: int| 0 <= i < x.len() implies at(
            block(a, size, i / count),
            i % count,
            #[trigger] x[i],
        ) by {
            lemma_first_run(a, b, size, count, i);
            assert(xy[i] == x[i]);
        }
        assert forall|i: int| 0 <= i < y.len() implies at(
            block(b, size, i / count),
            i % count,
            #[trigger] y[i],
        ) by {
            lemma_second_run(a, b, size, count, i);
            assert(xy[n + i] == y[i]);
        }
    }
    if blockwise(at, size, count, a, x) && blockwise(at, size, count, b, y) {
        assert forall|i: int| 0 <= i < xy.len() implies at(
            block(ab, size, i / count),
            i % count,
            #[trigger] xy[i],
        ) by {
            if i < n {
                lemma_first_run(a, b, size, count, i);
                assert(xy[i] == x[i]);
            } else {
                lemma_second_run(a, b, size, count, i - n);
                assert(xy[i] == y[i - n]);
            }
        }
    }
}

/// Q8_0 blocks decode on their own and in order.
pub proof fn law_q8_0_apart<T: Scalar, M: Math<T>>(
    m: M,
    a: Seq<u8>,
    b: Seq<u8>,
    x: Seq<T>,
    y: Seq<T>,
)
    requires
        a.len() % 34 == 0,
        b.len() % 34 == 0,
        x.len() == a.len() / 34 * 32,
    ensures
        q8_0_decoded(m, a + b, x + y) <==> q8_0_decoded(m, a, x) && q8_0_decoded(m, b, y),
{
    let at = |k: Seq<u8>, e: int, r: T| q8_0_at(m, k, e, r);
    law_blocks_apart(at, 34, 32, a, b, x, y);
}

/// Q4_K blocks decode on their own and in order.
pub proof fn law_q4_k_apart<T: Scalar, M: Math<T>>(
    m: M,
    a: Seq<u8>,
    b: Seq<u8>,
    x: Seq<T>,
    y: Seq<T>,
)
    requires
        a.len() % 144 == 0,
        b.len() % 144 == 0,
        x.len() == a.len() / 144 * 256,
    ensures
        q4_k_decoded(m, a + b, x + y) <==> q4_k_decoded(m, a, x) && q4_k_decoded(m, b, y),
{
    let at = |k: Seq<u8>, e: int, r: T| q4_k_at(m, k, e, r);
    law_blocks_apart(at, 144, 256, a, b, x, y);
}

/// Q5_K blocks decode on their own and in order.
pub proof fn law_q5_k_apart<T: Scalar, M: Math<T>>(
    m: M,
    a: Seq<u8>,
    b: Seq<u8>,
    x: Seq<T>,
    y: Seq<T>,
)
    requires
        a.len() % 176 == 0,
        b.len() % 176 == 0,
        x.len() == a.len() / 176 * 256,
    ensures
        q5_k_decoded(m, a + b, x + y) <==> q5_k_decoded(m, a, x) && q5_k_decoded(m, b, y),
{
    let at = |k: Seq<u8>, e: int, r: T| q5_k_at(m, k, e, r);
    law_blocks_apart(at, 176, 256, a, b, x, y);
}

/// Q6_K blocks decode on their own and in order.
pub proof fn law_q6_k_apart<T: Scalar, M: Math<T>>(
    m: M,
    a: Seq<u8>,
    b: Seq<u8>,
    x: Seq<T>,
    y: Seq<T>,
)
    requires
        a.len() % 210 == 0,
        b.len() % 210 == 0,
        x.len() == a.len() / 210 * 256,
    ensures
        q6_k_decoded(m, a + b, x + y) <==> q6_k_decoded(m, a, x) && q6_k_decoded(m, b, y),
{
    let at = |k: Seq<u8>, e: int, r: T| q6_k_at(m, k, e, r);
    law_blocks_apart(at, 210, 256, a, b, x, y);
}

/// IQ4_XS blocks decode on their own and in order.
pub proof fn law_iq4_xs_apart<T: Scalar, M: Math<T>>(
    m: M,
    a: Seq<u8>,
    b: Seq<u8>,
    x: Seq<T>,
    y: Seq<T>,
)
    requires
        a.len() % 136 == 0,
        b.len() % 136 == 0,
        x.len() == a.len() / 136 * 256,
    ensures
        iq4_xs_decoded(m, a + b, x + y) <==> iq4_xs_decoded(m, a, x) && iq4_xs_decoded(m, b, y),
{
    let at = |k: Seq<u8>, e: int, r: T| iq4_xs_at(m, k, e, r);
    law_blocks_apart(at, 136, 256, a, b, x, y);
}

fn nibble_of(byte: u8, i: usize) -> (r: i32)
    ensures
        r == nibble(byte, i as int),
        0 <= r < 16,
{
    if i % 2 == 0 {
        (byte % 16) as i32
    } else {
        (byte / 16) as i32
    }
}

fn bit_of(byte: u8, k: u8) -> (r: i32)
    requires
        k < 8,
    ensures
        r == bit(byte, k as int),
        0 <= r < 2,
{
    proof {
        vstd::bits::lemma_u8_shr_is_div(byte, k);
    }
    ((byte >> k) % 2) as i32
}

fn bit_pair_of(byte: u8, k: u8) -> (r: i32)
    requires
        k < 4,
    ensures
        r == bit_pair(byte, k as int),
        0 <= r < 4,
{
    proof {
        vstd::bits::lemma_u8_shr_is_div(byte, (2 * k) as u8);
    }
    ((byte >> (2 * k)) % 4) as i32
}

fn signed_of(byte: u8) -> (r: i32)
    ensures
        r == signed(byte),
        -128 <= r < 128,
{
    if byte < 128 {
        byte as i32
    } else {
        byte as i32 - 256
    }
}

fn iq4_level_of(n: i32) -> (r: i32)
    requires
        0 <= n < 16,
    ensures
        r == iq4_level(n as int),
{
    if n == 0 {
        -127
    } else if n == 1 {
        -104
    } else if n == 2 {
        -83
    } else if n == 3 {
        -65
    } else if n == 4 {
        -49
    } else if n == 5 {
        -35
    } else if n == 6 {
        -22
    } else if n == 7 {
        -10
    } else if n == 8 {
        1
    } else if n == 9 {
        13
    } else if n == 10 {
        25
    } else if n == 11 {
        38
    } else if n == 12 {
        53
    } else if n == 13 {
        69
    } else if n == 14 {
        89
    } else {
        113
    }
}

fn times_int_of<T: Scalar, M: Math<T>>(m: &M, d: T, n: i32) -> (r: T)
    requires
        arith::total::<T>(),
    ensures
        times_int(*m, d, n as int, r),
{
    let x = m.from_int(n);
    assert(arith::from_int(*m, (n as int) as i32, x));
    d * x
}

fn scaled_of<T: Scalar, M: Math<T>>(m: &M, b: &[u8], pos: usize, scale: i32, q: i32) -> (r: T)
    requires
        arith::total::<T>(),
        pos + 2 <= b@.len(),
    ensures
        scaled(*m, b@, pos as int, scale as int, q as int, r),
{
    let d = m.from_half(u16_at(b, pos));
    assert(half_in(*m, b@, pos as int, d));
    let ds = times_int_of(m, d, scale);
    times_int_of(m, ds, q)
}

fn affine_of<T: Scalar, M: Math<T>>(m: &M, b: &[u8], scale: i32, min: i32, q: i32) -> (r: T)
    requires
        arith::total::<T>(),
        b@.len() >= 4,
    ensures
        affine(*m, b@, scale as int, min as int, q as int, r),
{
    let dsq = scaled_of(m, b, 0, scale, q);
    let dmin = m.from_half(u16_at(b, 2));
    assert(half_in(*m, b@, 2, dmin));
    let dm = times_int_of(m, dmin, min);
    dsq - dm
}

fn q8_0_of<T: Scalar, M: Math<T>>(m: &M, b: &[u8], e: usize) -> (r: T)
    requires
        arith::total::<T>(),
        b@.len() == 34,
        e < 32,
    ensures
        q8_0_at(*m, b@, e as int, r),
{
    let d = m.from_half(u16_at(b, 0));
    let q = m.from_int(signed_of(b[2 + e]));
    assert(half_in(*m, b@, 0, d) && arith::from_int(*m, signed(b@[2 + e]) as i32, q));
    q * d
}

fn k_scale_of(b: &[u8], s: usize) -> (r: i32)
    requires
        b@.len() >= 16,
        s < 8,
    ensures
        r == k_scale(b@, s as int),
{
    if s < 4 {
        (b[4 + s] % 64) as i32
    } else {
        (b[8 + s] % 16) as i32 + 16 * (b[s] / 64) as i32
    }
}

fn k_min_of(b: &[u8], s: usize) -> (r: i32)
    requires
        b@.len() >= 16,
        s < 8,
    ensures
        r == k_min(b@, s as int),
{
    if s < 4 {
        (b[8 + s] % 64) as i32
    } else {
        (b[8 + s] / 16) as i32 + 16 * (b[4 + s] / 64) as i32
    }
}

fn q4_k_of<T: Scalar, M: Math<T>>(m: &M, b: &[u8], e: usize) -> (r: T)
    requires
        arith::total::<T>(),
        b@.len() == 144,
        e < 256,
    ensures
        q4_k_at(*m, b@, e as int, r),
{
    let s = e / 32;
    let q = nibble_of(b[16 + 32 * (e / 64) + e % 32], s);
    affine_of(m, b, k_scale_of(b, s), k_min_of(b, s), q)
}

fn q5_k_of<T: Scalar, M: Math<T>>(m: &M, b: &[u8], e: usize) -> (r: T)
    requires
        arith::total::<T>(),
        b@.len() == 176,
        e < 256,
    ensures
        q5_k_at(*m, b@, e as int, r),
{
    let s = e / 32;
    let q = nibble_of(b[48 + 32 * (e / 64) + e % 32], s) + 16 * bit_of(b[16 + e % 32], s as u8);
    affine_of(m, b, k_scale_of(b, s), k_min_of(b, s), q)
}

fn q6_k_of<T: Scalar, M: Math<T>>(m: &M, b: &[u8], e: usize) -> (r: T)
    requires
        arith::total::<T>(),
        b@.len() == 210,
        e < 256,
    ensures
        q6_k_at(*m, b@, e as int, r),
{
    let h = e / 128;
    let k = e % 128 / 32;
    let l = e % 32;
    let scale = signed_of(b[192 + 8 * h + l / 16 + 2 * k]);
    let q = nibble_of(b[64 * h + l + 32 * (k % 2)], k / 2) + 16 * bit_pair_of(
        b[128 + 32 * h + l],
        k as u8,
    ) - 32;
    scaled_of(m, b, 208, scale, q)
}

fn iq4_xs_of<T: Scalar, M: Math<T>>(m: &M, b: &[u8], e: usize) -> (r: T)
    requires
        arith::total::<T>(),
        b@.len() == 136,
        e < 256,
    ensures
        iq4_xs_at(*m, b@, e as int, r),
{
    let s = e / 32;
    let scale = nibble_of(b[4 + s / 2], s) + 16 * bit_pair_of(b[2 + s / 4], (s % 4) as u8) - 32;
    let q = iq4_level_of(nibble_of(b[8 + 16 * s + e % 16], e % 32 / 16));
    scaled_of(m, b, 0, scale, q)
}

/// Where the block of element `i` begins.
spec fn block_start(i: int, size: int, count: int) -> int {
    i / count * size
}

proof fn lemma_block_start(i: int, blocks: int, size: int, count: int)
    requires
        0 <= i < blocks * count,
        0 <= blocks,
        size > 0,
        count > 0,
    ensures
        0 <= block_start(i, size, count),
        block_start(i, size, count) + size <= blocks * size,
{
    shape::lemma_uncell(i, blocks, count);
    shape::lemma_cell(i / count, 0, blocks, size);
}

/// Decodes blocks of `size` bytes and `count` elements each: `f` gives the element at a place of
/// the block that begins at a position.
fn decode_blocks<T: Copy, F: Fn(usize, usize) -> T>(
    bytes: &[u8],
    shape: Vec<usize>,
    size: usize,
    count: usize,
    f: F,
) -> (r: Tensor<T>)
    requires
        size > 0,
        count > 0,
        shape::fits(shape@),
        bytes@.len() % size as nat == 0,
        bytes@.len() / size as nat * count == shape::numel_of(shape@),
        forall|start: usize, e: usize|
            start + size <= bytes@.len() && e < count ==> #[trigger] call_requires(f, (start, e)),
    ensures
        r.wf(),
        r.dims() == shape@,
        forall|i: int|
            0 <= i < r.elems().len() ==> 0 <= #[trigger] block_start(i, size as int, count as int)
                <= bytes@.len() - size,
        forall|i: int|
            0 <= i < r.elems().len() ==> call_ensures(
                f,
                (
                    block_start(i, size as int, count as int) as usize,
                    (i % count as int) as usize,
                ),
                #[trigger] r.elems()[i],
            ),
{
    assert(bytes.len() == bytes@.len());
    let ghost (len, s, c) = (bytes@.len() as int, size as int, count as int);
    let blocks = bytes.len() / size;
    proof {
        vstd::arithmetic::div_mod::lemma_fundamental_div_mod(len, s);
        assert(s * (len / s) == (len / s) * s) by (nonlinear_arith);
        assert(blocks * count == shape::numel_of(shape@));
        shape::lemma_numel_fits(shape@);
    }
    let n = blocks * count;
    let mut data: Vec<T> = Vec::with_capacity(n);
    while data.len() < n
        invariant
            n == blocks * c,
            s == size > 0,
            c == count > 0,
            len == bytes@.len() <= usize::MAX,
            blocks * s == len,
            data@.len() <= n,
            forall|start: usize, e: usize|
                start + size <= len && e < count ==> #[trigger] call_requires(f, (start, e)),
            forall|i: int|
                0 <= i < data@.len() ==> call_ensures(
                    f,
                    (block_start(i, s, c) as usize, (i % c) as usize),
                    #[trigger] data@[i],
                ),
        decreases n - data@.len(),
    {
        let i = data.len();
        proof {
            lemma_block_start(i as int, blocks as int, s, c);
            shape::lemma_uncell(i as int, blocks as int, c);
        }
        data.push(f(i / count * size, i % count));
    }
    assert forall|i: int| 0 <= i < n implies 0 <= #[trigger] block_start(i, s, c) <= len - s by {
        lemma_block_start(i, blocks as int, s, c);
    }
    Tensor::from_vec(data, shape)
}

/// Decodes a tensor in the Q8_0 format.
pub fn dequant_q8_0<T: Scalar, M: Math<T>>(bytes: &[u8], shape: Vec<usize>, m: &M) -> (r: Tensor<T>)
    requires
        arith::total::<T>(),
        shape::fits(shape@),
        bytes@.len() % 34 == 0,
        bytes@.len() / 34 * 32 == shape::numel_of(shape@),
    ensures
        r.wf(),
        r.dims() == shape@,
        q8_0_decoded(*m, bytes@, r.elems()),
{
    assert(bytes.len() == bytes@.len());
    decode_blocks(
        bytes,
        shape,
        34,
        32,
        |start: usize, e: usize| -> (r: T)
            requires
                start + 34 <= bytes@.len(),
                e < 32
            ensures
                q8_0_at(*m, bytes@.subrange(start as int, start + 34), e as int, r)
        { q8_0_of(m, slice_subrange(bytes, start, start + 34), e) },
    )
}

/// Decodes a tensor in the Q4_K format.
pub fn dequant_q4_k<T: Scalar, M: Math<T>>(bytes: &[u8], shape: Vec<usize>, m: &M) -> (r: Tensor<T>)
    requires
        arith::total::<T>(),
        shape::fits(shape@),
        bytes@.len() % 144 == 0,
        bytes@.len() / 144 * 256 == shape::numel_of(shape@),
    ensures
        r.wf(),
        r.dims() == shape@,
        q4_k_decoded(*m, bytes@, r.elems()),
{
    assert(bytes.len() == bytes@.len());
    decode_blocks(
        bytes,
        shape,
        144,
        256,
        |start: usize, e: usize| -> (r: T)
            requires
                start + 144 <= bytes@.len(),
                e < 256
            ensures
                q4_k_at(*m, bytes@.subrange(start as int, start + 144), e as int, r)
        { q4_k_of(m, slice_subrange(bytes, start, start + 144), e) },
    )
}

/// Decodes a tensor in the Q6_K format.
pub fn dequant_q6_k<T: Scalar, M: Math<T>>(bytes: &[u8], shape: Vec<usize>, m: &M) -> (r: Tensor<T>)
    requires
        arith::total::<T>(),
        shape::fits(shape@),
        bytes@.len() % 210 == 0,
        bytes@.len() / 210 * 256 == shape::numel_of(shape@),
    ensures
        r.wf(),
        r.dims() == shape@,
        q6_k_decoded(*m, bytes@, r.elems()),
{
    assert(bytes.len() == bytes@.len());
    decode_blocks(
        bytes,
        shape,
        210,
        256,
        |start: usize, e: usize| -> (r: T)
            requires
                start + 210 <= bytes@.len(),
                e < 256
            ensures
                q6_k_at(*m, bytes@.subrange(start as int, start + 210), e as int, r)
        { q6_k_of(m, slice_subrange(bytes, start, start + 210), e) },
    )
}

/// Decodes a tensor in the Q5_K format.
pub fn dequant_q5_k<T: Scalar, M: Math<T>>(bytes: &[u8], shape: Vec<usize>, m: &M) -> (r: Tensor<T>)
    requires
        arith::total::<T>(),
        shape::fits(shape@),
        bytes@.len() % 176 == 0,
        bytes@.len() / 176 * 256 == shape::numel_of(shape@),
    ensures
        r.wf(),
        r.dims() == shape@,
        q5_k_decoded(*m, bytes@, r.elems()),
{
    assert(bytes.len() == bytes@.len());
    decode_blocks(
        bytes,
        shape,
        176,
        256,
        |start: usize, e: usize| -> (r: T)
            requires
                start + 176 <= bytes@.len(),
                e < 256
            ensures
                q5_k_at(*m, bytes@.subrange(start as int, start + 176), e as int, r)
        { q5_k_of(m, slice_subrange(bytes, start, start + 176), e) },
    )
}

/// Decodes a tensor in the IQ4_XS format.
pub fn dequant_iq4_xs<T: Scalar, M: Math<T>>(bytes: &[u8], shape: Vec<usize>, m: &M) -> (r: Tensor<T>)
    requires
        arith::total::<T>(),
        shape::fits(shape@),
        bytes@.len() % 136 == 0,
        bytes@.len() / 136 * 256 == shape::numel_of(shape@),
    ensures
        r.wf(),
        r.dims() == shape@,
        iq4_xs_decoded(*m, bytes@, r.elems()),
{
    assert(bytes.len() == bytes@.len());
    decode_blocks(
        bytes,
        shape,
        136,
        256,
        |start: usize, e: usize| -> (r: T)
            requires
                start + 136 <= bytes@.len(),
                e < 256
            ensures
                iq4_xs_at(*m, bytes@.subrange(start as int, start + 136), e as int, r)
        { iq4_xs_of(m, slice_subrange(bytes, start, start + 136), e) },
    )
}

} // verus!
