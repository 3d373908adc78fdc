use ferrite::arith::Math;
use ferrite::gguf::{GGUFError, GGUF_MAGIC};
use ferrite::weights::WeightStore;

/// Single-precision arithmetic.
struct StdMath;

impl Math<f32> for StdMath {
    fn from_bits(&self, bits: u32) -> f32 {
        f32::from_bits(bits)
    }

    fn from_half(&self, bits: u16) -> f32 {
        half::f16::from_bits(bits).to_f32()
    }

    fn from_int(&self, n: i32) -> f32 {
        n as f32
    }

    fn from_usize(&self, n: usize) -> f32 {
        n as f32
    }

    fn lowest(&self) -> f32 {
        f32::NEG_INFINITY
    }

    fn max(&self, a: f32, b: f32) -> f32 {
        a.max(b)
    }

    fn exp(&self, x: f32) -> f32 {
        x.exp()
    }

    fn ln(&self, x: f32) -> f32 {
        x.ln()
    }

    fn sqrt(&self, x: f32) -> f32 {
        x.sqrt()
    }

    fn sin(&self, x: f32) -> f32 {
        x.sin()
    }

    fn cos(&self, x: f32) -> f32 {
        x.cos()
    }

    fn pow(&self, base: f32, exponent: f32) -> f32 {
        base.powf(exponent)
    }
}

fn put_str(out: &mut Vec<u8>, s: &str) {
    out.extend_from_slice(&(s.len() as u64).to_le_bytes());
    out.extend_from_slice(s.as_bytes());
}

/// A file of the given tensors: name, dimensions with the innermost first, type and encoding.
fn file(tensors: &[(&str, Vec<u64>, u32, Vec<u8>)]) -> Vec<u8> {
    let mut out = Vec::new();
    out.extend_from_slice(&GGUF_MAGIC.to_le_bytes());
    out.extend_from_slice(&3u32.to_le_bytes());
    out.extend_from_slice(&(tensors.len() as u64).to_le_bytes());
    out.extend_from_slice(&0u64.to_le_bytes());
    let mut data = Vec::new();
    for (name, dims, ggml_type, bytes) in tensors {
        put_str(&mut out, name);
        out.extend_from_slice(&(dims.len() as u32).to_le_bytes());
        for d in dims {
            out.extend_from_slice(&d.to_le_bytes());
        }
        out.extend_from_slice(&ggml_type.to_le_bytes());
        out.extend_from_slice(&(data.len() as u64).to_le_bytes());
        data.extend_from_slice(bytes);
        while data.len() % 32 != 0 {
            data.push(0xEE);
        }
    }
    while out.len() % 32 != 0 {
        out.push(0xEE);
    }
    out.extend_from_slice(&data);
    out
}

fn floats(xs: &[f32]) -> Vec<u8> {
    xs.iter().flat_map(|x| x.to_le_bytes()).collect()
}

#[test]
fn bytes_of_tensors() {
    let f = file(&[
        ("a", vec![3], 0, floats(&[1.0, 2.0, 3.0])),
        ("b", vec![2, 1], 24, vec![7, 8]),
        ("c", vec![33], 8, vec![9; 68]),
    ]);
    let store = WeightStore::<f32, StdMath>::open(&f, StdMath).unwrap();
    assert_eq!(store.get_bytes("a").unwrap(), floats(&[1.0, 2.0, 3.0]));
    assert_eq!(store.get_bytes("b").unwrap(), &[7, 8]);
    // two blocks for 33 elements
    assert_eq!(store.get_bytes("c").unwrap(), &[9; 68]);
    assert_eq!(store.gguf().tensors.len(), 3);
}

#[test]
fn tensors_are_decoded_by_their_type() {
    let mut q8 = vec![0x00, 0x3C];
    q8.extend([2u8; 32]);
    let mut q4 = vec![0u8; 144];
    q4[0..4].copy_from_slice(&[0x00, 0x3C, 0x00, 0x3C]);
    q4[4] = 1;
    q4[16] = 3;
    let mut q5 = vec![0u8; 176];
    q5[0..4].copy_from_slice(&[0x00, 0x3C, 0x00, 0x3C]);
    q5[4] = 1;
    q5[16] = 1;
    q5[48] = 3;
    let mut q6 = vec![0u8; 210];
    q6[208..210].copy_from_slice(&[0x00, 0x3C]);
    q6[192] = 1;
    q6[0] = 5;
    let mut iq4 = vec![0u8; 136];
    iq4[0..2].copy_from_slice(&[0x00, 0x3C]);
    let f = file(&[
        ("f32", vec![2, 1], 0, floats(&[1.5, -2.0])),
        ("f16", vec![2], 1, vec![0x00, 0x3C, 0x00, 0xC0]),
        ("bf16", vec![2], 30, vec![0x80, 0x3F, 0x20, 0xC0]),
        ("q8_0", vec![32], 8, q8),
        ("q4_k", vec![256], 12, q4),
        ("q5_k", vec![256], 13, q5),
        ("q6_k", vec![256], 14, q6),
        ("iq4_xs", vec![256], 23, iq4),
    ]);
    let mut store = WeightStore::open(&f, StdMath).unwrap();
    let t = store.load("f32").unwrap();
    assert_eq!(t.data(), &[1.5, -2.0]);
    assert_eq!(t.shape(), &[1, 2]);
    assert_eq!(store.load("f16").unwrap().data(), &[1.0, -2.0]);
    assert_eq!(store.load("bf16").unwrap().data(), &[1.0, -2.5]);
    assert_eq!(store.load("q8_0").unwrap().data(), &[2.0; 32]);
    assert_eq!(store.load("q4_k").unwrap().data()[0], 3.0);
    assert_eq!(store.load("q5_k").unwrap().data()[0], 19.0);
    assert_eq!(store.load("q6_k").unwrap().data()[0], -27.0);
    assert_eq!(store.load("iq4_xs").unwrap().data()[0], -32.0 * -127.0);
}

#[test]
fn loading_again_gives_the_same_tensor() {
    let f = file(&[("a", vec![2], 0, floats(&[1.0, 2.0])), ("b", vec![1], 0, floats(&[3.0]))]);
    let mut store = WeightStore::open(&f, StdMath).unwrap();
    let first = store.load("a").unwrap();
    let other = store.load("b").unwrap();
    let again = store.load("a").unwrap();
    assert_eq!(first.data(), again.data());
    assert_eq!(first.shape(), again.shape());
    assert_eq!(other.data(), &[3.0]);
}

#[test]
fn what_cannot_be_loaded() {
    let f = file(&[
        ("unknown", vec![1], 99, vec![0]),
        ("undecodable", vec![256], 10, vec![0; 84]),
        ("integers", vec![4], 26, vec![0; 16]),
        ("partial", vec![31], 8, vec![0; 34]),
        ("huge", vec![u64::MAX, 2], 0, vec![]),
        ("beyond", vec![1000], 0, vec![0; 4]),
        ("overflow", vec![u64::MAX / 2], 27, vec![]),
    ]);
    let mut store = WeightStore::<f32, StdMath>::open(&f, StdMath).unwrap();
    assert!(matches!(store.load("missing"), Err(GGUFError::TensorNotFound)));
    assert!(matches!(store.get_bytes("missing"), Err(GGUFError::TensorNotFound)));
    assert!(matches!(store.load("unknown"), Err(GGUFError::UnknownMetadataType(99))));
    assert!(matches!(store.load("undecodable"), Err(GGUFError::UnsupportedType(10))));
    assert_eq!(store.get_bytes("undecodable").unwrap().len(), 84);
    assert!(matches!(store.load("integers"), Err(GGUFError::UnsupportedType(26))));
    assert!(matches!(store.load("partial"), Err(GGUFError::InvalidShape)));
    assert_eq!(store.get_bytes("partial").unwrap().len(), 34);
    assert!(matches!(store.load("huge"), Err(GGUFError::InvalidShape)));
    assert!(matches!(store.load("beyond"), Err(GGUFError::OutOfBounds)));
    assert!(matches!(store.get_bytes("overflow"), Err(GGUFError::OutOfBounds)));
}

#[test]
fn dimensions_of_tensors() {
    let f = file(&[("a", vec![3, 2], 0, floats(&[0.0; 6])), ("b", vec![31], 8, vec![0; 34])]);
    let store = WeightStore::<f32, StdMath>::open(&f, StdMath).unwrap();
    assert_eq!(store.dims("a").unwrap(), vec![2, 3]);
    assert!(matches!(store.dims("b"), Err(GGUFError::InvalidShape)));
}

#[test]
fn a_file_that_is_none_is_refused() {
    let r = WeightStore::<f32, StdMath>::open(b"GGML", StdMath);
    assert!(matches!(r, Err(GGUFError::InvalidMagic)));
}

#[test]
fn a_tensor_is_decoded_the_same_way_every_time() {
    let bytes: Vec<u8> = (0..144).map(|i| (i * 37 % 61) as u8).collect();
    let f = file(&[("a", vec![256], 12, bytes)]);
    let first = WeightStore::open(&f, StdMath).unwrap().load("a").unwrap();
    let second = WeightStore::open(&f, StdMath).unwrap().load("a").unwrap();
    assert_eq!(first.data(), second.data());
}
