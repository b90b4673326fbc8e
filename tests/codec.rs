use envmap_tools::rgb9e5::{bitfield_extract, float3_to_rgb9e5, rgb9e5_to_float3};
use envmap_tools::{rgb9e5_pixels, to_vec_f16_from_byte_slice, u32_to_bytes};

fn encode(r: f32, g: f32, b: f32) -> u32 {
    float3_to_rgb9e5(&[r.to_bits(), g.to_bits(), b.to_bits()])
}

fn decode(w: u32) -> [f32; 3] {
    let bits = rgb9e5_to_float3(w);
    [f32::from_bits(bits[0]), f32::from_bits(bits[1]), f32::from_bits(bits[2])]
}

#[test]
fn zero_encodes_to_zero_word() {
    assert_eq!(encode(0.0, 0.0, 0.0), 0);
}

#[test]
fn simple_colour_encodes_exactly() {
    let w = encode(1.0, 0.5, 0.25);
    assert_eq!(w, (16 << 27) | (64 << 18) | (128 << 9) | 256);
    assert_eq!(decode(w), [1.0, 0.5, 0.25]);
}

#[test]
fn mantissa_overflow_raises_exponent() {
    // 0.9995 rounds to mantissa 512 at exponent 15, so exponent 16 is used.
    let w = encode(0.9995, 0.0, 0.0);
    assert_eq!(w >> 27, 16);
    assert_eq!(w, (16 << 27) | 256);
    assert_eq!(decode(w), [1.0, 0.0, 0.0]);
}

#[test]
fn largest_value_fills_every_field() {
    assert_eq!(encode(65408.0, 65408.0, 65408.0), u32::MAX);
    assert_eq!(decode(u32::MAX), [65408.0, 65408.0, 65408.0]);
}

#[test]
fn negative_and_nan_clamp_to_zero() {
    assert_eq!(encode(-1.0, 0.5, 0.25), encode(0.0, 0.5, 0.25));
    assert_eq!(encode(0.5, f32::NEG_INFINITY, 0.25), encode(0.5, 0.0, 0.25));
    assert_eq!(encode(0.5, 0.25, f32::NAN), encode(0.5, 0.25, 0.0));
    assert_eq!(encode(-0.0, -3.0, -1e30), 0);
}

#[test]
fn large_values_clamp_to_max() {
    let max = encode(65408.0, 1.0, 2.0);
    assert_eq!(encode(1e9, 1.0, 2.0), max);
    assert_eq!(encode(f32::INFINITY, 1.0, 2.0), max);
    assert_eq!(encode(65500.0, 1.0, 2.0), max);
}

#[test]
fn tiny_values_round_half_up() {
    // 2^-25 is half of the smallest step at exponent 0.
    let half_step = f32::from_bits(0x3300_0000);
    assert_eq!(encode(half_step, 0.0, 0.0), 1);
    let below = f32::from_bits(0x32FF_FFFF);
    assert_eq!(encode(below, 0.0, 0.0), 0);
    let step = f32::from_bits(0x3380_0000);
    assert_eq!(decode(1), [step, 0.0, 0.0]);
}

#[test]
fn round_trip_stays_within_one_unit() {
    let samples = [
        (3.14159f32, 0.001f32, 100.0f32),
        (0.3, 0.6, 0.9),
        (1234.5, 7.25, 0.0),
        (0.00001, 0.00002, 0.00003),
    ];
    for (r, g, b) in samples {
        let w = encode(r, g, b);
        let e = (w >> 27) as i32;
        let unit = 2f32.powi(e - 24);
        let back = decode(w);
        for (x, y) in [r, g, b].iter().zip(back.iter()) {
            assert!((x - y).abs() <= unit, "{} vs {}", x, y);
        }
    }
}

#[test]
fn bitfield_extract_picks_bits() {
    assert_eq!(bitfield_extract(0xABCD_1234, 4, 8), 0x23);
    assert_eq!(bitfield_extract(0xABCD_1234, 27, 5), 0x15);
    assert_eq!(bitfield_extract(0xABCD_1234, 0, 0), 0);
}

#[test]
fn words_become_little_endian_bytes() {
    assert_eq!(u32_to_bytes(&[0x0102_0304, 2]), vec![4, 3, 2, 1, 2, 0, 0, 0]);
    assert_eq!(u32_to_bytes(&[]), Vec::<u8>::new());
}

#[test]
fn bytes_become_half_patterns() {
    assert_eq!(to_vec_f16_from_byte_slice(&[0x00, 0x3C, 0x00, 0xC0]), vec![0x3C00, 0xC000]);
}

#[test]
fn pixels_encode_one_word_each() {
    let px = [
        1.0f32.to_bits(),
        0.5f32.to_bits(),
        0.25f32.to_bits(),
        1.0f32.to_bits(),
        0.0f32.to_bits(),
        0.0f32.to_bits(),
        0.0f32.to_bits(),
    ];
    let words = rgb9e5_pixels(&px);
    assert_eq!(words, vec![encode(1.0, 0.5, 0.25), 0]);
}
