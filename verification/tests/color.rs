use barnes_hut::color::{color_for_id, mix64, new_color_seed};

#[test]
fn mix64_known_values() {
    assert_eq!(mix64(0), 0);
    // Reference value of the splitmix64 finalizer.
    let mut x: u64 = 1;
    x ^= x >> 30;
    x = x.wrapping_mul(0xbf58476d1ce4e5b9);
    x ^= x >> 27;
    x = x.wrapping_mul(0x94d049bb133111eb);
    x ^= x >> 31;
    assert_eq!(mix64(1), x);
    assert_ne!(mix64(1), 1);
}

#[test]
fn colours_are_bright_and_opaque() {
    for id in 0..500u64 {
        let c = color_for_id(id, 12345);
        assert_eq!(c[3], 0xff);
        for k in 0..3 {
            assert!((96..=223).contains(&c[k]));
        }
    }
}

#[test]
fn colour_of_id_zero_and_seed_zero() {
    assert_eq!(color_for_id(0, 0), [96, 96, 96, 0xff]);
}

#[test]
fn colour_channels_come_from_mixed_bytes() {
    let x = mix64(7 ^ 99);
    let c = color_for_id(7, 99);
    assert_eq!(c[0], (x & 0xff) as u8 / 2 + 96);
    assert_eq!(c[1], ((x >> 8) & 0xff) as u8 / 2 + 96);
    assert_eq!(c[2], ((x >> 16) & 0xff) as u8 / 2 + 96);
}

#[test]
fn seeds_avoid_zero_and_max() {
    for _ in 0..100 {
        let s = new_color_seed();
        assert!(s >= 1 && s < u64::MAX);
    }
}

#[test]
fn mixing_keeps_distinct_inputs_apart() {
    let mut seen = std::collections::HashSet::new();
    for x in 0..20_000u64 {
        assert!(seen.insert(mix64(x)));
    }
    for x in 1..20_000u64 {
        assert!(seen.insert(mix64(x << 40)));
    }
}
