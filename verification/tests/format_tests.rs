use flashdir::format::format_size;

#[test]
fn format_zero() {
    assert_eq!(format_size(0), "0 B");
}

#[test]
fn format_just_below_one_kb() {
    assert_eq!(format_size(1023), "1023 B");
}

#[test]
fn format_one_kb() {
    assert_eq!(format_size(1024), "1.00 KB");
}

#[test]
fn format_one_and_a_half_kb() {
    assert_eq!(format_size(1536), "1.50 KB");
}

#[test]
fn format_ten_kb() {
    assert_eq!(format_size(10 * 1024), "10.0 KB");
}

#[test]
fn format_hundred_kb() {
    assert_eq!(format_size(100 * 1024), "100 KB");
}

#[test]
fn format_one_gb() {
    assert_eq!(format_size(1024 * 1024 * 1024), "1.00 GB");
}

#[test]
fn format_two_thousand_bytes() {
    assert_eq!(format_size(2000), "1.95 KB");
}

#[test]
fn format_one_mb() {
    assert_eq!(format_size(1024 * 1024), "1.00 MB");
}

#[test]
fn format_one_tb() {
    assert_eq!(format_size(1024_i64 * 1024 * 1024 * 1024), "1.00 TB");
}

#[test]
fn format_caps_at_tb() {
    assert_eq!(format_size(2048_i64 * 1024 * 1024 * 1024 * 1024), "2048 TB");
}

#[test]
fn format_negative() {
    assert_eq!(format_size(-5), "-5 B");
}

#[test]
fn format_rounds_up_to_next_magnitude() {
    // 10239 bytes scale to 9.999..., which two decimals round to 10.00.
    assert_eq!(format_size(10239), "10.00 KB");
}
