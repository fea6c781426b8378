use duptool::report::format_size;

#[test]
fn sizes_in_units() {
    assert_eq!(format_size(0), "0 bytes");
    assert_eq!(format_size(512), "512 bytes");
    assert_eq!(format_size(1023), "1023 bytes");
    assert_eq!(format_size(1024), "1.00 KB");
    assert_eq!(format_size(1536), "1.50 KB");
    assert_eq!(format_size(1152), "1.12 KB");
    assert_eq!(format_size(1408), "1.38 KB");
    assert_eq!(format_size(5 * 1024 * 1024), "5.00 MB");
    assert_eq!(format_size(3 * 1024 * 1024 * 1024 / 2), "1.50 GB");
    assert_eq!(format_size(u64::MAX), "17179869184.00 GB");
}

#[test]
fn sizes_match_two_decimal_rendering() {
    let mut size: u64 = 1;
    while size < (1u64 << 50) {
        for s in [size, size + 1, size * 3 / 2, size * 9 / 8, size * 7 / 5] {
            let expected = if s >= 1 << 30 {
                format!("{:.2} GB", s as f64 / (1u64 << 30) as f64)
            } else if s >= 1 << 20 {
                format!("{:.2} MB", s as f64 / (1u64 << 20) as f64)
            } else if s >= 1 << 10 {
                format!("{:.2} KB", s as f64 / 1024.0)
            } else {
                format!("{} bytes", s)
            };
            assert_eq!(format_size(s), expected, "size {}", s);
        }
        size = size * 3 + 1;
    }
}
