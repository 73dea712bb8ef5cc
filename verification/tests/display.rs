use gpg_wrapper::choices::{InputSource, KeyAlgorithm, KeyMaterial};
use gpg_wrapper::display::{build_uid, fingerprint_shortens, push_decimal, short_fingerprint};

#[test]
fn uid_joins_name_and_email() {
    assert_eq!(build_uid("  Alice ", " a@b.c\t"), "Alice <a@b.c>");
    assert_eq!(build_uid("Alice", "   "), "Alice");
    assert_eq!(build_uid("", " a@b.c"), "a@b.c");
    assert_eq!(build_uid(" \n", "\u{3000}"), "");
}

#[test]
fn uid_trims_unicode_white_space() {
    assert_eq!(build_uid("\u{3000}Bob\u{a0}", ""), "Bob");
    assert_eq!(build_uid("Zo\u{eb}", "z@e.x"), "Zo\u{eb} <z@e.x>");
}

#[test]
fn short_fingerprint_keeps_short_ones() {
    assert_eq!(short_fingerprint("0123456789ABCDEF"), "0123456789ABCDEF");
    assert_eq!(short_fingerprint("01234567890123456789"), "01234567890123456789");
}

#[test]
fn short_fingerprint_cuts_long_ones() {
    let f = "0123456789ABCDEF0123456789ABCDEF01234567";
    assert!(fingerprint_shortens(f));
    assert_eq!(short_fingerprint(f), "0123456789\u{2026}EF01234567");
}

#[test]
fn short_fingerprint_needs_character_boundaries() {
    assert!(!fingerprint_shortens("012345678\u{e9}0123456789abc"));
    assert!(fingerprint_shortens("short\u{e9}"));
}

#[test]
fn decimal_numbers() {
    let mut v = Vec::new();
    push_decimal(&mut v, 0);
    push_decimal(&mut v, 1207);
    assert_eq!(v.iter().collect::<String>(), "01207");
}

#[test]
fn choice_labels() {
    assert_eq!(KeyMaterial::Public.label(), "Public");
    assert_eq!(KeyMaterial::Secret.label(), "Private / Secret");
    assert_eq!(InputSource::Text.label(), "Text field");
    assert_eq!(InputSource::Clipboard.label(), "Clipboard");
    assert_eq!(InputSource::File.label(), "File");
    assert_eq!(KeyAlgorithm::Rsa2048.label(), "RSA 2048-bit");
    assert_eq!(KeyAlgorithm::Rsa3072.label(), "RSA 3072-bit");
    assert_eq!(KeyAlgorithm::Rsa4096.label(), "RSA 4096-bit");
    assert_eq!(KeyAlgorithm::Ed25519.label(), "Ed25519 + Curve25519");
    assert_eq!(KeyAlgorithm::Default.label(), "GnuPG default");
}

#[test]
fn new_key_algorithms() {
    assert_eq!(KeyAlgorithm::Rsa2048.default_new_key_algo(), "rsa2048/cert,sign+rsa2048/encr");
    assert_eq!(KeyAlgorithm::Rsa3072.default_new_key_algo(), "rsa3072/cert,sign+rsa3072/encr");
    assert_eq!(KeyAlgorithm::Rsa4096.default_new_key_algo(), "rsa4096/cert,sign+rsa4096/encr");
    assert_eq!(KeyAlgorithm::Ed25519.default_new_key_algo(), "ed25519/cert,sign+cv25519/encr");
    assert_eq!(KeyAlgorithm::Default.default_new_key_algo(), "default");
}
