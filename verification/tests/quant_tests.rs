use ferrite::arith::Math;
use ferrite::quant::{dequant_iq4_xs, dequant_q4_k, dequant_q5_k, dequant_q6_k, dequant_q8_0};

/// Single-precision arithmetic.
struct StdMath;

impl Math<f32> for StdMath {
    fn from_bits(&self, bits: u32) -> f32 {
        f32::from_bits(bits)
    }

    fn from_half(&self, bits: u16) -> f32 {
        half::f16::from_bits(bits).to_f32()
    }

    fn from_int(&self, n: i32) -> f32 {
        n as f32
    }

    fn from_usize(&self, n: usize) -> f32 {
        n as f32
    }

    fn lowest(&self) -> f32 {
        f32::NEG_INFINITY
    }

    fn max(&self, a: f32, b: f32) -> f32 {
        a.max(b)
    }

    fn exp(&self, x: f32) -> f32 {
        x.exp()
    }

    fn ln(&self, x: f32) -> f32 {
        x.ln()
    }

    fn sqrt(&self, x: f32) -> f32 {
        x.sqrt()
    }

    fn sin(&self, x: f32) -> f32 {
        x.sin()
    }

    fn cos(&self, x: f32) -> f32 {
        x.cos()
    }

    fn pow(&self, base: f32, exponent: f32) -> f32 {
        base.powf(exponent)
    }
}

/// Bytes without a pattern, with the half-precision numbers at the given places of each block
/// made finite.
fn noise(blocks: usize, size: usize, halves: &[usize]) -> Vec<u8> {
    let mut state: u32 = 12345;
    let mut out: Vec<u8> = Vec::new();
    for _ in 0..blocks * size {
        state = state.wrapping_mul(1664525).wrapping_add(1013904223);
        out.push((state >> 24) as u8);
    }
    for k in 0..blocks {
        for h in halves {
            // an exponent in the middle of the range
            out[k * size + h + 1] = out[k * size + h + 1] & 0x83 | 0x30;
        }
    }
    out
}

fn half_at(b: &[u8], at: usize) -> f32 {
    half::f16::from_le_bytes([b[at], b[at + 1]]).to_f32()
}

#[test]
fn q8_0_by_hand() {
    // a scale of 0.5, then the bytes 0, 1, ..., 31 with two of them replaced
    let mut b = vec![0x00, 0x38];
    b.extend(0..32u8);
    b[2 + 3] = 0xFF;
    b[2 + 4] = 0x80;
    let t = dequant_q8_0(&b, vec![4, 8], &StdMath);
    assert_eq!(t.shape(), &[4, 8]);
    assert_eq!(t.data()[1], 0.5);
    assert_eq!(t.data()[31], 15.5);
    assert_eq!(t.data()[3], -0.5);
    assert_eq!(t.data()[4], -64.0);
}

#[test]
fn q8_0_blocks() {
    let b = noise(3, 34, &[0]);
    let t = dequant_q8_0(&b, vec![96], &StdMath);
    for (i, x) in t.data().iter().enumerate() {
        let block = &b[i / 32 * 34..];
        assert_eq!(*x, block[2 + i % 32] as i8 as f32 * half_at(block, 0));
    }
}

#[test]
fn no_blocks_give_no_elements() {
    let t = dequant_q8_0(&[], vec![0], &StdMath);
    assert_eq!(t.data().len(), 0);
}

#[test]
fn q4_k_by_hand() {
    let mut b = vec![0u8; 144];
    // d = 2, dmin = 1
    b[0..4].copy_from_slice(&[0x00, 0x40, 0x00, 0x3C]);
    // scale and minimum of the first sub-block, then of the fifth
    b[4] = 3 | 0x80;
    b[8] = 5 | 0xC0;
    b[12] = 0x41;
    b[16] = 0x7A;
    b[16 + 64] = 0x01;
    let t = dequant_q4_k(&b, vec![256], &StdMath);
    assert_eq!(t.data()[0], 2.0 * 3.0 * 10.0 - 5.0);
    assert_eq!(t.data()[1], -5.0);
    // the second sub-block has a scale and a minimum of zero
    assert_eq!(t.data()[32], 0.0);
    // the fifth has the low bits of its scale and its minimum in byte 12, and the high bits in
    // those of bytes 4 and 8: a scale of 33 and a minimum of 52
    assert_eq!(t.data()[128], 2.0 * 33.0 * 1.0 - 52.0);
    assert_eq!(t.data()[129], -52.0);
}

#[test]
fn q4_k_fifth_scale() {
    let mut b = vec![0x00, 0x3C, 0x00, 0x3C];
    b.extend([0, 0, 0, 0, 0, 0, 0, 0, 0x32, 0, 0, 0]);
    b.extend([0x55; 128]);
    let t = dequant_q4_k(&b, vec![256], &StdMath);
    for (i, x) in t.data().iter().enumerate() {
        assert_eq!(*x, if i / 32 == 4 { 7.0 } else { 0.0 });
    }
}

#[test]
fn q4_k_blocks() {
    let b = noise(2, 144, &[0, 2]);
    let mut expected: Vec<f32> = Vec::new();
    for block in b.chunks(144) {
        let (d, dmin) = (half_at(block, 0), half_at(block, 2));
        let scales = &block[4..16];
        for run in 0..4 {
            for part in 0..2 {
                let s = 2 * run + part;
                let (sc, m) = if s < 4 {
                    (scales[s] & 63, scales[s + 4] & 63)
                } else {
                    (
                        scales[s + 4] & 15 | (scales[s - 4] >> 6) << 4,
                        scales[s + 4] >> 4 | (scales[s] >> 6) << 4,
                    )
                };
                let (sc, m) = (sc as f32, m as f32);
                for l in 0..32 {
                    let byte = block[16 + 32 * run + l];
                    let q = if part == 0 { byte & 15 } else { byte >> 4 } as f32;
                    expected.push(d * sc * q - dmin * m);
                }
            }
        }
    }
    assert_eq!(dequant_q4_k(&b, vec![2, 256], &StdMath).data(), expected);
}

#[test]
fn q5_k_by_hand() {
    let mut b = vec![0u8; 176];
    // d = 2, dmin = 1
    b[0..4].copy_from_slice(&[0x00, 0x40, 0x00, 0x3C]);
    // scale and minimum of the first sub-block; then of the fifth, a scale of 33 and a minimum
    // of 52
    b[4] = 3 | 0x80;
    b[8] = 5 | 0xC0;
    b[12] = 0x41;
    // the fifth bits at the first place of each sub-block: set in the first and the fifth
    b[16] = 0x11;
    b[48] = 0x7A;
    b[48 + 64] = 0x01;
    let t = dequant_q5_k(&b, vec![256], &StdMath);
    assert_eq!(t.data()[0], 2.0 * 3.0 * 26.0 - 5.0);
    assert_eq!(t.data()[1], -5.0);
    // the second sub-block has a scale and a minimum of zero
    assert_eq!(t.data()[32], 0.0);
    assert_eq!(t.data()[128], 2.0 * 33.0 * 17.0 - 52.0);
    assert_eq!(t.data()[129], -52.0);
}

#[test]
fn q5_k_blocks() {
    let b = noise(2, 176, &[0, 2]);
    let mut expected: Vec<f32> = Vec::new();
    for block in b.chunks(176) {
        let (d, dmin) = (half_at(block, 0), half_at(block, 2));
        let scales = &block[4..16];
        for run in 0..4 {
            for part in 0..2 {
                let s = 2 * run + part;
                let (sc, m) = if s < 4 {
                    (scales[s] & 63, scales[s + 4] & 63)
                } else {
                    (
                        scales[s + 4] & 15 | (scales[s - 4] >> 6) << 4,
                        scales[s + 4] >> 4 | (scales[s] >> 6) << 4,
                    )
                };
                for l in 0..32 {
                    let byte = block[48 + 32 * run + l];
                    let low = if part == 0 { byte & 15 } else { byte >> 4 };
                    let high = block[16 + l] >> s & 1;
                    let q = low | high << 4;
                    expected.push(d * sc as f32 * q as f32 - dmin * m as f32);
                }
            }
        }
    }
    assert_eq!(dequant_q5_k(&b, vec![512], &StdMath).data(), expected);
}

#[test]
fn q6_k_blocks() {
    let b = noise(2, 210, &[208]);
    let mut expected: Vec<f32> = Vec::new();
    for block in b.chunks(210) {
        let d = half_at(block, 208);
        for h in 0..2 {
            for k in 0..4 {
                for l in 0..32 {
                    let byte = block[64 * h + 32 * (k % 2) + l];
                    let low = if k < 2 { byte & 15 } else { byte >> 4 };
                    let high = block[128 + 32 * h + l] >> (2 * k) & 3;
                    let sc = block[192 + 8 * h + 2 * k + l / 16] as i8 as f32;
                    expected.push(d * sc * ((low | high << 4) as i32 - 32) as f32);
                }
            }
        }
    }
    assert_eq!(dequant_q6_k(&b, vec![512], &StdMath).data(), expected);
}

#[test]
fn q6_k_first_scales() {
    let mut b = vec![0u8; 192];
    b.extend([1, 1]);
    b.extend([0; 14]);
    b.extend([0x00, 0x3C]);
    let t = dequant_q6_k(&b, vec![256], &StdMath);
    for (i, x) in t.data().iter().enumerate() {
        assert_eq!(*x, if i < 32 { -32.0 } else { 0.0 });
    }
}

#[test]
fn iq4_xs_by_hand() {
    let mut b = vec![0u8; 136];
    // d = 1; a scale of 33 in the first sub-block: one low bit, and two as its high bits
    b[0..2].copy_from_slice(&[0x00, 0x3C]);
    b[4] = 0x01;
    b[2] = 0x02;
    b[8] = 0xF0;
    let t = dequant_iq4_xs(&b, vec![256], &StdMath);
    assert_eq!(t.data()[0], -127.0);
    assert_eq!(t.data()[1], -127.0);
    assert_eq!(t.data()[16], 113.0);
    // a scale of zero in the second
    assert_eq!(t.data()[32], -32.0 * -127.0);
}

#[test]
fn iq4_xs_nibbles() {
    let mut b = vec![0x00, 0x3C, 0xAA, 0xAA];
    b.extend([0x11; 4]);
    b.extend([0x80; 128]);
    let t = dequant_iq4_xs(&b, vec![256], &StdMath);
    for (i, x) in t.data().iter().enumerate() {
        assert_eq!(*x, if i % 32 < 16 { -127.0 } else { 1.0 });
    }
}

#[test]
fn iq4_xs_blocks() {
    let levels: [i32; 16] =
        [-127, -104, -83, -65, -49, -35, -22, -10, 1, 13, 25, 38, 53, 69, 89, 113];
    let b = noise(2, 136, &[0]);
    let mut expected: Vec<f32> = Vec::new();
    for block in b.chunks(136) {
        let d = half_at(block, 0);
        let high = u16::from_le_bytes([block[2], block[3]]);
        for j in 0..8 {
            let low = if j % 2 == 0 { block[4 + j / 2] & 15 } else { block[4 + j / 2] >> 4 };
            let scale = (low as i32 | ((high >> (2 * j) & 3) as i32) << 4) - 32;
            for half in 0..2 {
                for i in 0..16 {
                    let q = block[8 + 16 * j + i] >> (4 * half) & 15;
                    expected.push(d * scale as f32 * levels[q as usize] as f32);
                }
            }
        }
    }
    assert_eq!(dequant_iq4_xs(&b, vec![512], &StdMath).data(), expected);
}

#[test]
fn packed_integers_at_their_limits() {
    // all bits set, and scales of one
    let mut q6 = vec![0xFFu8; 210];
    q6[192..208].copy_from_slice(&[1; 16]);
    q6[208..210].copy_from_slice(&[0x00, 0x3C]);
    assert_eq!(dequant_q6_k(&q6, vec![256], &StdMath).data(), &[31.0; 256]);
    let mut q5 = vec![0xFFu8; 176];
    q5[0..4].copy_from_slice(&[0x00, 0x3C, 0x00, 0x00]);
    assert_eq!(dequant_q5_k(&q5, vec![256], &StdMath).data(), &[63.0 * 31.0; 256]);
    let mut q4 = vec![0xFFu8; 144];
    q4[0..4].copy_from_slice(&[0x00, 0x3C, 0x00, 0x00]);
    assert_eq!(dequant_q4_k(&q4, vec![256], &StdMath).data(), &[63.0 * 15.0; 256]);
}

#[test]
fn blocks_are_decoded_apart_and_in_order() {
    let cases: [(usize, usize, &[usize], fn(&[u8], usize) -> Vec<f32>); 5] = [
        (34, 32, &[0], |b, n| dequant_q8_0(b, vec![n], &StdMath).data().to_vec()),
        (144, 256, &[0, 2], |b, n| dequant_q4_k(b, vec![n], &StdMath).data().to_vec()),
        (176, 256, &[0, 2], |b, n| dequant_q5_k(b, vec![n], &StdMath).data().to_vec()),
        (210, 256, &[208], |b, n| dequant_q6_k(b, vec![n], &StdMath).data().to_vec()),
        (136, 256, &[0], |b, n| dequant_iq4_xs(b, vec![n], &StdMath).data().to_vec()),
    ];
    for (size, count, halves, decode) in cases {
        let b = noise(3, size, halves);
        let mut parts: Vec<f32> = Vec::new();
        for block in b.chunks(size) {
            parts.extend(decode(block, count));
        }
        assert_eq!(decode(&b, 3 * count), parts);
        // the first block alone, the other two together
        let mut halves = decode(&b[..size], count);
        halves.extend(decode(&b[size..], 2 * count));
        assert_eq!(halves, parts);
    }
}
