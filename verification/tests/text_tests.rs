use queens::{build_bit_set_from_inds, format_thousands, render_u64};

#[test]
fn test_format_thousands() {
    assert_eq!(format_thousands(0), "0");
    assert_eq!(format_thousands(7), "7");
    assert_eq!(format_thousands(999), "999");
    assert_eq!(format_thousands(1000), "1,000");
    assert_eq!(format_thousands(1001), "1,001");
    assert_eq!(format_thousands(123456), "123,456");
    assert_eq!(format_thousands(1234567), "1,234,567");
    assert_eq!(format_thousands(1000000000), "1,000,000,000");
}

#[test]
fn test_build_bit_set_from_inds() {
    assert_eq!(build_bit_set_from_inds(&[]), 0);
    assert_eq!(build_bit_set_from_inds(&[0]), 1);
    assert_eq!(build_bit_set_from_inds(&[0, 1, 3]), 0b1011);
    assert_eq!(build_bit_set_from_inds(&[63]), 1u64 << 63);
    // repeated indices are fine: the bit is simply set again
    assert_eq!(build_bit_set_from_inds(&[2, 2, 2]), 0b100);
}

#[test]
fn test_render_u64() {
    let rendered = render_u64(0b101);
    let lines: Vec<&str> = rendered.lines().collect();
    assert_eq!(lines.len(), 8);
    assert_eq!(lines[0], "X . X . . . . . ");
    for line in &lines[1..] {
        assert_eq!(*line, ". . . . . . . . ");
    }
    let bottom = render_u64(1u64 << 63);
    let lines: Vec<&str> = bottom.lines().collect();
    assert_eq!(lines[7], ". . . . . . . X ");
}
