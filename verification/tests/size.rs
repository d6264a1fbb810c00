use megadl::picker::human_size;

/// Sizes by floating point.
fn by_float(n: i64) -> String {
    let units = ["B", "KiB", "MiB", "GiB", "TiB"];
    let mut v = n as f64;
    let mut u = 0;
    while v >= 1024.0 && u < units.len() - 1 {
        v /= 1024.0;
        u += 1;
    }
    if u == 0 {
        format!("{n} B")
    } else {
        format!("{v:.1} {}", units[u])
    }
}

#[test]
fn sizes_in_words() {
    assert_eq!(human_size(0), "0 B");
    assert_eq!(human_size(-5), "-5 B");
    assert_eq!(human_size(1023), "1023 B");
    assert_eq!(human_size(1024), "1.0 KiB");
    assert_eq!(human_size(1536), "1.5 KiB");
    assert_eq!(human_size(1048575), "1024.0 KiB");
    assert_eq!(human_size(5 << 30), "5.0 GiB");
    assert_eq!(human_size(i64::MAX), "8388608.0 TiB");
    assert_eq!(human_size(i64::MIN), "-9223372036854775808 B");
}

#[test]
fn sizes_agree_with_floating_point() {
    let mut samples: Vec<i64> = vec![i64::MAX, i64::MIN, i64::MAX - 511, i64::MAX - 512, i64::MAX - 513];
    for shift in 0..63 {
        for delta in -3i64..=3 {
            samples.push((1i64 << shift).wrapping_add(delta));
        }
    }
    // Ties of the shown decimal: odd multiples of a twentieth of a unit.
    for unit in [1024i64, 1 << 20, 1 << 30, 1 << 40] {
        for k in 0..4000i64 {
            samples.push(unit + k * unit / 20);
            samples.push(unit * 3 + k * unit / 40);
        }
    }
    // Ties of the 53rd bit.
    for k in 0..2000i64 {
        samples.push((1 << 53) + k);
        samples.push((1 << 60) + k * 64);
        samples.push((1 << 62) + k * 256);
        samples.push(i64::MAX - k * 128);
    }
    let mut x: u64 = 0x9e37_79b9_7f4a_7c15;
    for _ in 0..20000 {
        x ^= x << 13;
        x ^= x >> 7;
        x ^= x << 17;
        samples.push((x >> (x % 60)) as i64);
    }
    for n in samples {
        assert_eq!(human_size(n), by_float(n), "{n}");
    }
}
