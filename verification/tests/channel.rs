use ray_tracer_challenge::channel::channel_sample;

fn native(v: f64) -> u8 {
    (v.clamp(0.0, 1.0) * 256.0) as u8
}

#[test]
fn sample_clamps_and_scales() {
    assert_eq!(channel_sample(1.5f64.to_bits()), 255);
    assert_eq!(channel_sample((-0.5f64).to_bits()), 0);
    assert_eq!(channel_sample(0.0f64.to_bits()), 0);
    assert_eq!(channel_sample(1.0f64.to_bits()), 255);
}

#[test]
fn sample_truncates() {
    assert_eq!(channel_sample(0.5f64.to_bits()), 128);
    assert_eq!(channel_sample(0.8f64.to_bits()), 204);
    assert_eq!(channel_sample(0.6f64.to_bits()), 153);
    assert_eq!(channel_sample(0.999f64.to_bits()), 255);
    assert_eq!(channel_sample(0.00390625f64.to_bits()), 1);
    assert_eq!(channel_sample(0.0039f64.to_bits()), 0);
    assert_eq!(channel_sample(0.99609375f64.to_bits()), 255);
    assert_eq!(channel_sample(0.996f64.to_bits()), 254);
}

#[test]
fn sample_of_special_values() {
    assert_eq!(channel_sample((-0.0f64).to_bits()), 0);
    assert_eq!(channel_sample(f64::NAN.to_bits()), 0);
    assert_eq!(channel_sample((-f64::NAN).to_bits()), 0);
    assert_eq!(channel_sample(0x7FF0_0000_0000_0001), 0);
    assert_eq!(channel_sample(0xFFFF_FFFF_FFFF_FFFF), 0);
    assert_eq!(channel_sample(f64::INFINITY.to_bits()), 255);
    assert_eq!(channel_sample(f64::NEG_INFINITY.to_bits()), 0);
    assert_eq!(channel_sample(f64::MAX.to_bits()), 255);
    assert_eq!(channel_sample(f64::MIN.to_bits()), 0);
    assert_eq!(channel_sample(f64::MIN_POSITIVE.to_bits()), 0);
    assert_eq!(channel_sample(1), 0);
    assert_eq!(channel_sample(0x000F_FFFF_FFFF_FFFF), 0);
}

#[test]
fn sample_agrees_with_the_machine_at_every_step() {
    for k in 0..=256u32 {
        let v = k as f64 / 256.0;
        for bits in [v.to_bits().wrapping_sub(1), v.to_bits(), v.to_bits() + 1] {
            let w = f64::from_bits(bits);
            assert_eq!(channel_sample(bits), native(w), "{:?}", w);
            assert_eq!(channel_sample((-w).to_bits()), native(-w), "{:?}", -w);
        }
    }
}

#[test]
fn sample_agrees_with_the_machine_on_scattered_encodings() {
    let mut bits: u64 = 0x0123_4567_89AB_CDEF;
    for _ in 0..200_000 {
        bits = bits.wrapping_mul(6364136223846793005).wrapping_add(1442695040888963407);
        assert_eq!(channel_sample(bits), native(f64::from_bits(bits)), "{:#x}", bits);
        // Encodings between a 256th and one, where the sample varies.
        let near = 0x3F70_0000_0000_0000 + (bits >> 8) % 0x0080_0000_0000_0000;
        assert_eq!(channel_sample(near), native(f64::from_bits(near)), "{:#x}", near);
    }
}

#[test]
fn sample_agrees_with_the_machine_on_every_exponent() {
    for e in 0..0x800u64 {
        for f in [0u64, 1, 0x8_0000_0000_0000, 0xF_FFFF_FFFF_FFFF] {
            for s in [0u64, 1] {
                let bits = (s << 63) | (e << 52) | f;
                assert_eq!(channel_sample(bits), native(f64::from_bits(bits)), "{:#x}", bits);
            }
        }
    }
}
