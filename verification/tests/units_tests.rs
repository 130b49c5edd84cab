use rvab::units::{bytes2ieee, decimal_text, round_to_double};

fn reference(size: u64) -> String {
    let units = ["B", "KiB", "MiB", "GiB", "TiB", "PiB", "EiB"];
    let mut size = size as f64;
    let mut i = 0;
    while size >= 1024.0 && i < units.len() - 1 {
        size /= 1024.0;
        i += 1;
    }
    format!("{:.1}{}", size, units[i])
}

#[test]
fn decimal_text_writes_every_digit() {
    assert_eq!(decimal_text(0), "0");
    assert_eq!(decimal_text(7), "7");
    assert_eq!(decimal_text(10), "10");
    assert_eq!(decimal_text(1203), "1203");
    assert_eq!(decimal_text(u64::MAX), "18446744073709551615");
    for n in [9u64, 99, 100, 101, 65535, 1_000_000_007] {
        assert_eq!(decimal_text(n), n.to_string());
    }
}

#[test]
fn sizes_are_written_in_binary_units() {
    assert_eq!(bytes2ieee(0), "0.0B");
    assert_eq!(bytes2ieee(1023), "1023.0B");
    assert_eq!(bytes2ieee(1024), "1.0KiB");
    assert_eq!(bytes2ieee(1536), "1.5KiB");
    assert_eq!(bytes2ieee(123456789), "117.7MiB");
    assert_eq!(bytes2ieee(5368709120), "5.0GiB");
    assert_eq!(bytes2ieee(1099511627777), "1.0TiB");
    assert_eq!(bytes2ieee(9007199254740993), "8.0PiB");
    assert_eq!(bytes2ieee(u64::MAX), "16.0EiB");
}

#[test]
fn rounding_can_reach_the_next_thousand() {
    assert_eq!(bytes2ieee(1048575), "1024.0KiB");
    assert_eq!(bytes2ieee(1048064), "1023.5KiB");
    assert_eq!(bytes2ieee(1152921504606846975), "1.0EiB");
}

#[test]
fn ties_go_to_the_even_tenth() {
    // 1075.2 bytes would be 1.05 KiB; the bytes around it fall to either side.
    assert_eq!(bytes2ieee(1075), "1.0KiB");
    assert_eq!(bytes2ieee(1076), "1.1KiB");
    // 0.25 KiB steps: 1.25 KiB and 1.75 KiB are ties.
    assert_eq!(bytes2ieee(1024 + 256), "1.2KiB");
    assert_eq!(bytes2ieee(1024 + 768), "1.8KiB");
    assert_eq!(bytes2ieee((1024 + 256) * 1024), "1.2MiB");
    assert_eq!(bytes2ieee((1024 + 768) * 1024 * 1024), "1.8GiB");
}

#[test]
fn sizes_agree_with_floating_point_formatting() {
    let mut samples: Vec<u64> = vec![0, 1, 2, 999, 1000, 1023, 1024, 1025, u64::MAX, u64::MAX - 1];
    for shift in 0..64u32 {
        let p = 1u64 << shift;
        for delta in [0u64, 1, 2, 3, 51, 52, 102, 103, 511, 512, 513] {
            samples.push(p.wrapping_add(delta));
            samples.push(p.wrapping_sub(delta));
            samples.push(p.wrapping_add(p / 20).wrapping_add(delta));
            samples.push(p.wrapping_add(p / 4).wrapping_sub(delta));
            samples.push(p.wrapping_add(p / 2).wrapping_add(delta));
            samples.push(p.wrapping_mul(3).wrapping_add(delta));
        }
    }
    let mut x: u64 = 0x9E3779B97F4A7C15;
    for _ in 0..4000 {
        x ^= x << 13;
        x ^= x >> 7;
        x ^= x << 17;
        samples.push(x);
        samples.push(x >> (x % 64));
    }
    for n in samples {
        assert_eq!(bytes2ieee(n), reference(n), "size {}", n);
    }
}

#[test]
fn nearest_double_is_what_a_cast_gives() {
    for n in [0u64, 1, (1 << 53) - 1, 1 << 53, (1 << 53) + 1, (1 << 53) + 2, (1 << 53) + 3, (1 << 54) + 2, (1 << 54) + 6, u64::MAX, u64::MAX - 1024, u64::MAX - 1023, (1 << 63) + 1024, (1 << 63) + 1025, (1 << 63) + 3072] {
        assert_eq!(round_to_double(n), (n as f64) as u128, "number {}", n);
    }
}
