use demod_fm::codec::{decode, encode, IqSample, Level};
use demod_fm::usage::DataType;

fn frac(num: i32, den: u32) -> Level {
    Level::Fraction { num, den }
}

fn level_value(l: Level) -> f64 {
    match l {
        Level::Fraction { num, den } => num as f64 / den as f64,
        Level::Float { bits } => f32::from_bits(bits) as f64,
    }
}

fn bits(v: &[f32]) -> Vec<u32> {
    v.iter().map(|x| x.to_bits()).collect()
}

#[test]
fn decode_counts_whole_samples_only() {
    assert_eq!(decode(&vec![0u8; 8], DataType::F32).len(), 1);
    assert_eq!(decode(&vec![0u8; 7], DataType::F32).len(), 0);
    assert_eq!(decode(&vec![0u8; 15], DataType::F32).len(), 1);
    assert_eq!(decode(&vec![0u8; 12], DataType::I16).len(), 3);
    assert_eq!(decode(&vec![0u8; 15], DataType::I16).len(), 3);
    assert_eq!(decode(&vec![0u8; 4], DataType::U8).len(), 2);
    assert_eq!(decode(&vec![0u8; 5], DataType::U8).len(), 2);
    assert_eq!(decode(&vec![0u8; 1], DataType::S8).len(), 0);
    assert_eq!(decode(&Vec::new(), DataType::S8).len(), 0);
}

#[test]
fn decode_s8_extremes() {
    let r = decode(&vec![0x80, 0x7f], DataType::S8);
    assert_eq!(r, vec![IqSample { i: frac(-255, 255), q: frac(255, 255) }]);
}

#[test]
fn decode_u8_values() {
    let r = decode(&vec![0, 255, 128, 127], DataType::U8);
    assert_eq!(r[0], IqSample { i: frac(-255, 255), q: frac(255, 255) });
    assert_eq!(r[1], IqSample { i: frac(1, 255), q: frac(-1, 255) });
}

#[test]
fn decode_i16_little_endian() {
    let r = decode(&vec![0x00, 0x80, 0xff, 0x7f, 0x34, 0x12, 0xff, 0xff], DataType::I16);
    assert_eq!(r[0], IqSample { i: frac(-32768, 32768), q: frac(32767, 32768) });
    assert_eq!(r[1], IqSample { i: frac(0x1234, 32768), q: frac(-1, 32768) });
}

#[test]
fn decode_f32_keeps_bits() {
    let mut bytes = 1.0f32.to_le_bytes().to_vec();
    bytes.extend_from_slice(&(-0.25f32).to_le_bytes());
    let r = decode(&bytes, DataType::F32);
    assert_eq!(r, vec![IqSample { i: Level::Float { bits: 0x3f80_0000 }, q: Level::Float { bits: (-0.25f32).to_bits() } }]);
    assert_eq!(level_value(r[0].q), -0.25);
}

#[test]
fn encode_lengths_follow_width() {
    let s = bits(&[0.1, -0.2, 0.3]);
    assert_eq!(encode(&s, DataType::S8, false).len(), 3);
    assert_eq!(encode(&s, DataType::U8, false).len(), 3);
    assert_eq!(encode(&s, DataType::I16, false).len(), 6);
    assert_eq!(encode(&s, DataType::F32, false).len(), 12);
    assert_eq!(encode(&Vec::new(), DataType::I16, false).len(), 0);
}

#[test]
fn encode_i16_rounds() {
    // 0.5 * 32767 = 16383.5 rounds away from zero.
    assert_eq!(encode(&bits(&[0.5]), DataType::I16, false), vec![0x00, 0x40]);
    assert_eq!(encode(&bits(&[-0.5]), DataType::I16, false), vec![0x00, 0xc0]);
    assert_eq!(encode(&bits(&[0.0]), DataType::I16, false), vec![0x00, 0x00]);
    assert_eq!(encode(&bits(&[1.0]), DataType::I16, false), vec![0xff, 0x7f]);
    assert_eq!(encode(&bits(&[-1.0]), DataType::I16, false), vec![0x01, 0x80]);
}

#[test]
fn encode_s8_and_u8_values() {
    assert_eq!(encode(&bits(&[1.0, -1.0, 0.0]), DataType::S8, false), vec![127, 0x80, 0xff]);
    assert_eq!(encode(&bits(&[1.0, -1.0, 0.0]), DataType::U8, false), vec![255, 0, 128]);
    // 255 * 1.5 / 2 = 191.25
    assert_eq!(encode(&bits(&[0.5]), DataType::U8, false), vec![191]);
    // 191.25 - 128 = 63.25
    assert_eq!(encode(&bits(&[0.5]), DataType::S8, false), vec![63]);
}

#[test]
fn encode_clamps_out_of_range_values() {
    let s = bits(&[2.0, 1.5, f32::INFINITY, -3.0, f32::NEG_INFINITY]);
    assert_eq!(encode(&s, DataType::S8, false), vec![127, 127, 127, 0x80, 0x80]);
    assert_eq!(encode(&s, DataType::U8, false), vec![255, 255, 255, 0, 0]);
    assert_eq!(encode(&s, DataType::I16, false), vec![0xff, 0x7f, 0xff, 0x7f, 0xff, 0x7f, 0x01, 0x80, 0x01, 0x80]);
    let f = encode(&bits(&[2.0, -3.0, 0.75]), DataType::F32, false);
    let mut expected = 1.0f32.to_le_bytes().to_vec();
    expected.extend_from_slice(&(-1.0f32).to_le_bytes());
    expected.extend_from_slice(&0.75f32.to_le_bytes());
    assert_eq!(f, expected);
}

#[test]
fn encode_square_wave_takes_three_values() {
    let s = bits(&[0.3, -0.001, 0.0, 1e-30, -0.9, 5.0]);
    assert_eq!(encode(&s, DataType::S8, true), vec![127, 0x80, 0xff, 127, 0x80, 127]);
    assert_eq!(encode(&s, DataType::U8, true), vec![255, 0, 128, 255, 0, 255]);
    let i = encode(&s, DataType::I16, true);
    assert_eq!(i, vec![0xff, 0x7f, 0x01, 0x80, 0x00, 0x00, 0xff, 0x7f, 0x01, 0x80, 0xff, 0x7f]);
    let f = encode(&bits(&[0.3, -0.001, 0.0]), DataType::F32, true);
    let mut expected = 1.0f32.to_le_bytes().to_vec();
    expected.extend_from_slice(&(-1.0f32).to_le_bytes());
    expected.extend_from_slice(&0.0f32.to_le_bytes());
    assert_eq!(f, expected);
}

#[test]
fn encode_nan_narrows_as_zero() {
    let s = bits(&[f32::NAN]);
    assert_eq!(encode(&s, DataType::S8, false), vec![0xff]);
    assert_eq!(encode(&s, DataType::U8, true), vec![128]);
    assert_eq!(encode(&s, DataType::I16, false), vec![0, 0]);
    assert_eq!(encode(&s, DataType::F32, false), f32::NAN.to_bits().to_le_bytes().to_vec());
}

#[test]
fn encode_tiny_values_keep_their_sign() {
    let s = bits(&[1e-30, -1e-30]);
    assert_eq!(encode(&s, DataType::S8, false), vec![0, 0xff]);
    assert_eq!(encode(&s, DataType::U8, false), vec![128, 127]);
    assert_eq!(encode(&s, DataType::I16, false), vec![0, 0, 0, 0]);
}

#[test]
fn round_trip_within_quantization_error() {
    for &v in &[0.25f32, -0.7, 0.123, 0.999, -0.999, 0.0, 1.0, -1.0] {
        let b = encode(&bits(&[v, v]), DataType::I16, false);
        let d = decode(&b, DataType::I16);
        let back = level_value(d[0].i);
        assert!((back - v as f64).abs() <= 0.5 / 32767.0 + 1.0 / 32768.0, "i16 {}", v);

        let b = encode(&bits(&[v, v]), DataType::U8, false);
        let d = decode(&b, DataType::U8);
        assert!((level_value(d[0].i) - v as f64).abs() <= 1.0 / 255.0 + 1e-9, "u8 {}", v);

        let b = encode(&bits(&[v, v]), DataType::S8, false);
        let d = decode(&b, DataType::S8);
        assert!((level_value(d[0].i) - v as f64).abs() <= 1.0 / 255.0 + 1e-9, "s8 {}", v);

        let b = encode(&bits(&[v, v]), DataType::F32, false);
        let d = decode(&b, DataType::F32);
        assert_eq!(level_value(d[0].i), v as f64);
    }
}

#[test]
fn dc_u8_chunk_scenario() {
    let input = vec![128u8; 8192];
    let samples = decode(&input, DataType::U8);
    assert_eq!(samples.len(), 4096);
    for s in &samples {
        assert_eq!(*s, IqSample { i: frac(1, 255), q: frac(1, 255) });
        assert!(level_value(s.i).abs() < 0.004);
    }
    let demodulated = vec![0.0f32; 4096];
    let out = encode(&bits(&demodulated), DataType::U8, false);
    assert_eq!(out.len(), 4096);
    assert!(out.iter().all(|&b| b == 128));
}
