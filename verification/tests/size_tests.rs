use carsync::size::format_bytes;

fn float_reference(bytes: u64) -> String {
    let units = ["B", "KB", "MB", "GB", "TB"];
    let mut size = bytes as f64;
    let mut unit_index = 0;
    while size >= 1024.0 && unit_index < units.len() - 1 {
        size /= 1024.0;
        unit_index += 1;
    }
    format!("{:.2} {}", size, units[unit_index])
}

#[test]
fn format_bytes_small_counts_are_bytes() {
    assert_eq!(format_bytes(0), "0.00 B");
    assert_eq!(format_bytes(1), "1.00 B");
    assert_eq!(format_bytes(1023), "1023.00 B");
}

#[test]
fn format_bytes_switches_units_at_1024() {
    assert_eq!(format_bytes(1024), "1.00 KB");
    assert_eq!(format_bytes(1536), "1.50 KB");
    assert_eq!(format_bytes(1048576), "1.00 MB");
    assert_eq!(format_bytes(1073741824), "1.00 GB");
    assert_eq!(format_bytes(1099511627776), "1.00 TB");
}

#[test]
fn format_bytes_stays_in_terabytes() {
    assert_eq!(format_bytes(1024 * 1099511627776), "1024.00 TB");
    assert_eq!(format_bytes(u64::MAX), float_reference(u64::MAX));
    assert_eq!(format_bytes(u64::MAX), "16777216.00 TB");
}

#[test]
fn format_bytes_rounds_ties_like_float_formatting() {
    // 1152 / 1024 = 1.125 exactly: a tie between 1.12 and 1.13.
    assert_eq!(format_bytes(1152), float_reference(1152));
    assert_eq!(format_bytes(1152 * 3), float_reference(1152 * 3));
}

#[test]
fn format_bytes_rounds_up_just_below_next_unit() {
    assert_eq!(format_bytes(1048575), float_reference(1048575));
    assert_eq!(format_bytes(1048575), "1024.00 KB");
}

#[test]
fn format_bytes_matches_float_formatting_on_many_values() {
    let mut values: Vec<u64> = Vec::new();
    for i in 0..5000u64 {
        values.push(i);
        values.push(1000 + i * 7);
        values.push(1024 * 1024 - 2500 + i);
        values.push(i * 1_000_003);
        values.push(i.wrapping_mul(0x9E37_79B9_7F4A_7C15));
    }
    for shift in 0..64u32 {
        let p = 1u64 << shift;
        values.push(p);
        values.push(p - 1);
        values.push(p.wrapping_add(1));
        values.push(p.wrapping_add(p >> 1));
    }
    for big in [(1u64 << 53) + 1, (1u64 << 54) + 2, (1u64 << 54) + 6, (1u64 << 60) + 12345, u64::MAX - 1024] {
        values.push(big);
    }
    for v in values {
        assert_eq!(format_bytes(v), float_reference(v), "bytes = {}", v);
    }
}
