use evmtrace::selector_to_hex;

#[test]
fn selector_hex_of_known_selector() {
    assert_eq!(selector_to_hex(&vec![0xfa, 0x46, 0x1e, 0x33]), "0xfa461e33");
}

#[test]
fn selector_hex_uses_two_digits_per_byte() {
    assert_eq!(selector_to_hex(&vec![0x00, 0x0f, 0xa0]), "0x000fa0");
}

#[test]
fn selector_hex_of_empty_bytes_is_bare_prefix() {
    assert_eq!(selector_to_hex(&vec![]), "0x");
}

#[test]
fn selector_hex_covers_all_digits() {
    assert_eq!(
        selector_to_hex(&vec![0x01, 0x23, 0x45, 0x67, 0x89, 0xab, 0xcd, 0xef]),
        "0x0123456789abcdef"
    );
}
