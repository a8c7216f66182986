use book_mirror::fixed::parse_checksum;
use book_mirror::fixed::parse_fixed;

#[test]
fn test_parse_fixed_exact_values() {
    assert_eq!(parse_fixed("5711.80000", 5), Some(571180000));
    assert_eq!(parse_fixed("0.05005", 5), Some(5005));
    assert_eq!(parse_fixed("8.13439401", 8), Some(813439401));
    assert_eq!(parse_fixed("0.00000500", 8), Some(500));
    assert_eq!(parse_fixed("0.00000000", 8), Some(0));
}

#[test]
fn test_parse_fixed_shapes() {
    // Fewer fractional digits than the scale are padded.
    assert_eq!(parse_fixed("5711.8", 5), Some(571180000));
    // A bare integer and a trailing dot are both whole values.
    assert_eq!(parse_fixed("5711", 5), Some(571100000));
    assert_eq!(parse_fixed("5711.", 5), Some(571100000));
    // A leading dot is a pure fraction.
    assert_eq!(parse_fixed(".5", 5), Some(50000));
    assert_eq!(parse_fixed("0", 5), Some(0));
}

#[test]
fn test_parse_fixed_rejections() {
    assert_eq!(parse_fixed("", 5), None);
    assert_eq!(parse_fixed(".", 5), None);
    assert_eq!(parse_fixed("abc", 5), None);
    assert_eq!(parse_fixed("57x1.8", 5), None);
    assert_eq!(parse_fixed("5711.8.0", 5), None);
    assert_eq!(parse_fixed("-5711.8", 5), None);
    // More fractional digits than the scale can hold exactly.
    assert_eq!(parse_fixed("0.000001", 5), None);
    // Too large for a scaled 64-bit value.
    assert_eq!(parse_fixed("18446744073709551616", 0), None);
    assert_eq!(parse_fixed("999999999999999", 5), None);
}

#[test]
fn test_parse_checksum_values() {
    assert_eq!(parse_checksum("974947235"), Some(974947235));
    assert_eq!(parse_checksum("0"), Some(0));
    assert_eq!(parse_checksum("4294967295"), Some(4294967295));
    assert_eq!(parse_checksum("4294967296"), None);
    assert_eq!(parse_checksum(""), None);
    assert_eq!(parse_checksum("12.3"), None);
    assert_eq!(parse_checksum("12a"), None);
}

#[test]
fn test_level_wire_text() {
    let l = book_mirror::order_book::Level { price: 571180000, volume: 813439401 };
    assert_eq!(l.price_text(), "5711.80000");
    assert_eq!(l.volume_text(), "8.13439401");

    let small = book_mirror::order_book::Level { price: 5005, volume: 500 };
    assert_eq!(small.price_text(), "0.05005");
    assert_eq!(small.volume_text(), "0.00000500");

    let zero = book_mirror::order_book::Level { price: 0, volume: 0 };
    assert_eq!(zero.price_text(), "0.00000");
    assert_eq!(zero.volume_text(), "0.00000000");
}
