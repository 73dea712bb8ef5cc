use gpg_wrapper::armor::{normalize_armored_key, ArmorError};

#[test]
fn normalizes_literal_newlines_and_imports_test_key() {
    let input = "-----BEGIN PGP PUBLIC KEY BLOCK-----\\nmDMEapqvlhYJKwYBBAHaRw8BAQdAj7MK7Tsu+psAzW41qpXfK6bDtFY/uw7ms4VW\\nFu4siwi0BHRlc3SIkAQTFgoAOBYhBOZR33x70HvYIh6sOSBGsrBsAfikBQJqmq+W\\nAhsDBQsJCAcCBhUKCQgLAgQWAgMBAh4BAheAAAoJECBGsrBsAfik2pYBAIf4EQd7\\nozreP8t7MMnlCmNCpuUDI8j1/I2W85f56FZ2AP4l1R+UJg8W/bgRzpCcepvMRPsT\\nN3ylZiNCUl9q/VMbCLg4BGqar5YSCisGAQQBl1UBBQEBB0AYB3GfmAjnQLe3Ub+w\\ntSjFKF0hrKYS5qmDs8XBQhSIEwMBCAeIeAQYFgoAIBYhBOZR33x70HvYIh6sOSBG\\nsrBsAfikBQJqmq+WAhsMAAoJECBGsrBsAfikFD0A/i7zqg1K2HiJ+tSe1sD3Hcoh\\nvHoJ7jcU5kH9jiZm4IayAP41V/gb3FPiT6ewS1uErJmRIQCNiyKeK6Ra3pqxh8DY\\nCA==\\n=DsIk\\n-----END PGP PUBLIC KEY BLOCK-----";
    let normalized = normalize_armored_key(input).unwrap();
    assert!(normalized.starts_with("-----BEGIN PGP PUBLIC KEY BLOCK-----\n"));
    assert!(normalized.ends_with("-----END PGP PUBLIC KEY BLOCK-----\n"));
    assert!(!normalized.contains("\\\\n"));
}

#[test]
fn normalized_block_has_one_cleaned_line_per_body_line() {
    let input = "junk -----BEGIN PGP PUBLIC KEY BLOCK-----\\r\\n  abc \\\\n\r\ndef\\\\\rghi\n\n-----END PGP PUBLIC KEY BLOCK----- tail";
    let out = normalize_armored_key(input).unwrap();
    assert_eq!(
        out,
        "-----BEGIN PGP PUBLIC KEY BLOCK-----\nabc\ndef\nghi\n-----END PGP PUBLIC KEY BLOCK-----\n"
    );
}

#[test]
fn normalized_block_with_empty_body() {
    let out = normalize_armored_key(
        "-----BEGIN PGP PUBLIC KEY BLOCK----------END PGP PUBLIC KEY BLOCK-----",
    )
    .unwrap();
    assert_eq!(
        out,
        "-----BEGIN PGP PUBLIC KEY BLOCK-----\n\n-----END PGP PUBLIC KEY BLOCK-----\n"
    );
}

#[test]
fn normalized_block_holds_no_backslash() {
    let out = normalize_armored_key(
        "-----BEGIN PGP PUBLIC KEY BLOCK-----\\nA\\B\\\\C\\\n-----END PGP PUBLIC KEY BLOCK-----",
    )
    .unwrap();
    assert!(!out.contains('\\'));
    assert_eq!(
        out,
        "-----BEGIN PGP PUBLIC KEY BLOCK-----\nABC\n-----END PGP PUBLIC KEY BLOCK-----\n"
    );
}

#[test]
fn normalize_without_begin_marker_fails() {
    let r = normalize_armored_key("hello -----END PGP PUBLIC KEY BLOCK-----");
    assert_eq!(r, Err(ArmorError::MissingBegin));
    assert_eq!(
        ArmorError::MissingBegin.message(),
        "Clipboard does not contain a public PGP key"
    );
}

#[test]
fn normalize_without_end_marker_fails() {
    let r = normalize_armored_key(
        "-----END PGP PUBLIC KEY BLOCK----- -----BEGIN PGP PUBLIC KEY BLOCK-----\nabc",
    );
    assert_eq!(r, Err(ArmorError::MissingEnd));
    assert_eq!(
        ArmorError::MissingEnd.message(),
        "Clipboard contains an incomplete public PGP key"
    );
}

#[test]
fn normalizing_twice_changes_nothing() {
    let input = "x-----BEGIN PGP PUBLIC KEY BLOCK-----\\r\\n abc\\\\n-----BEGIN PGP PUBLIC KEY BLOCK-----\\ndef \\n-----END PGP PUBLIC KEY BLOCK-----";
    let once = normalize_armored_key(input).unwrap();
    let twice = normalize_armored_key(&once).unwrap();
    assert_eq!(once, twice);
}
