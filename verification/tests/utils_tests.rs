use conversai::utils::{calculate_sha256, to_hex, truncate_text};

#[test]
fn truncate_text_keeps_short_text() {
    assert_eq!(truncate_text("hello", 10), "hello");
    assert_eq!(truncate_text("hello", 5), "hello");
}

#[test]
fn truncate_text_cuts_long_text() {
    assert_eq!(truncate_text("hello world", 8), "hello...");
    assert_eq!(truncate_text("hello world", 3), "...");
}

#[test]
fn truncate_text_compares_bytes_and_takes_characters() {
    // Four characters, eight bytes: longer than seven bytes, and all four
    // characters are within the four that are taken.
    assert_eq!(truncate_text("\u{e9}\u{e9}\u{e9}\u{e9}", 7), "\u{e9}\u{e9}\u{e9}\u{e9}...");
}

#[test]
fn truncate_text_of_empty_text_is_empty() {
    assert_eq!(truncate_text("", 0), "");
}

#[test]
fn calculate_sha256_of_known_inputs() {
    assert_eq!(
        calculate_sha256(b"abc"),
        "ba7816bf8f01cfea414140de5dae2223b00361a396177a9cb410ff61f20015ad"
    );
    assert_eq!(
        calculate_sha256(b""),
        "e3b0c44298fc1c149afbf4c8996fb92427ae41e4649b934ca495991b7852b855"
    );
}

#[test]
fn calculate_sha256_is_not_the_input() {
    let out = calculate_sha256(b"0123456789abcdef0123456789abcdef");
    assert_eq!(out.len(), 64);
    assert_ne!(out, "3031323334353637383961626364656630313233343536373839616263646566");
}

#[test]
fn to_hex_writes_two_lowercase_digits_a_byte() {
    assert_eq!(to_hex(&vec![0x00, 0x0f, 0xa0, 0xff]), "000fa0ff");
    assert_eq!(to_hex(&Vec::new()), "");
}
