use gpg_wrapper::colon::{
    decode_gpg_colon_field, list_keys, parse_public_keys, parse_secret_fprs,
    try_decode_gpg_colon_field, try_parse_public_keys,
};

const PUBLIC: &str = "tru::1:1700000000:0:3:1:5\n\
pub:u:255:22:AAAA1111BBBB2222:1700000000:1800000000::u:::scESC::::::23::0:\n\
fpr:::::::::0123456789ABCDEF0123456789ABCDEF01234567:\n\
uid:u::::1700000000::HASH::Alice Example <alice@example.org>::::::::::0:\n\
sub:u:255:18:CCCC3333DDDD4444:1700000000::::::e::::::23:\n\
fpr:::::::::FEDCBA9876543210FEDCBA9876543210FEDCBA98:\n\
pub:-:3072:1:EEEE5555FFFF6666:1600000000:::-:::scESC::::::23::0:\n\
fpr:::::::::1111222233334444555566667777888899990000:\n\
uid:-::::1600000000::HASH::Bob \\3a Builder::::::::::0:\n";

const SECRET: &str = "sec:u:255:22:AAAA1111BBBB2222:1700000000:1800000000::u:::scESC:::+:::23::0:\n\
fpr:::::::::0123456789ABCDEF0123456789ABCDEF01234567:\n\
grp:::::::::ABCDEF:\n\
ssb:u:255:18:CCCC3333DDDD4444:1700000000::::::e:::+:::23:\n\
fpr:::::::::FEDCBA9876543210FEDCBA9876543210FEDCBA98:\n";

#[test]
fn secret_fingerprints_come_from_fpr_records() {
    let mut fprs = parse_secret_fprs(SECRET);
    fprs.sort();
    assert_eq!(
        fprs,
        vec![
            "0123456789ABCDEF0123456789ABCDEF01234567".to_string(),
            "FEDCBA9876543210FEDCBA9876543210FEDCBA98".to_string(),
        ]
    );
}

#[test]
fn secret_fingerprints_skip_empty_and_repeated() {
    let fprs = parse_secret_fprs("fpr:::::::::ABC:\nfpr::::::::::\nfpr:::::::::ABC:\nfpr\n");
    assert_eq!(fprs, vec!["ABC".to_string()]);
}

#[test]
fn public_keys_are_read_in_order() {
    let secret = parse_secret_fprs(SECRET);
    let keys = parse_public_keys(PUBLIC, &secret);
    assert_eq!(keys.len(), 2);
    assert_eq!(keys[0].fingerprint, "0123456789ABCDEF0123456789ABCDEF01234567");
    assert_eq!(keys[0].uid, "Alice Example <alice@example.org>");
    assert_eq!(keys[0].created, "1700000000");
    assert_eq!(keys[0].expires, "1800000000");
    assert_eq!(keys[0].key_type, "22");
    assert_eq!(keys[0].capabilities, "scESC");
    assert!(keys[0].secret);
    assert_eq!(keys[1].fingerprint, "1111222233334444555566667777888899990000");
    assert_eq!(keys[1].uid, "Bob : Builder");
    assert_eq!(keys[1].expires, "");
    assert_eq!(keys[1].key_type, "1");
    assert!(!keys[1].secret);
}

#[test]
fn key_without_uid_is_named_by_length() {
    let keys = parse_public_keys("pub:-:4096:1:X:1:::-:::sc:\nfpr:::::::::F1:\n", &vec![]);
    assert_eq!(keys.len(), 1);
    assert_eq!(keys[0].uid, "4096-bit key");
    assert_eq!(keys[0].capabilities, "sc");
}

#[test]
fn keys_without_fingerprint_are_left_out() {
    let listing = "pub:-:1024:1:X:1:::-:::sc:\nuid:-::::::::A:\npub:-:2048:1:Y:1:::-:::sc:\nfpr:::::::::F2:\n";
    let keys = parse_public_keys(listing, &vec!["F2".to_string()]);
    assert_eq!(keys.len(), 1);
    assert_eq!(keys[0].fingerprint, "F2");
    assert_eq!(keys[0].uid, "2048-bit key");
    assert!(keys[0].secret);
}

#[test]
fn only_first_fingerprint_of_a_key_counts() {
    let listing = "pub:-:1:1:X:1:::-:::sc:\nfpr:::::::::F1:\nsub:-:1:1:S:1:::-:::e:\nfpr:::::::::F9:\n";
    let keys = parse_public_keys(listing, &vec!["F9".to_string()]);
    assert_eq!(keys.len(), 1);
    assert_eq!(keys[0].fingerprint, "F1");
    assert!(!keys[0].secret);
}

#[test]
fn records_before_any_key_are_ignored() {
    let listing = "fpr:::::::::F0:\nuid:-::::::::Nobody:\r\npub:-:8:1:X:1:::-:::sc:\r\nfpr:::::::::F1:\r\n";
    let keys = parse_public_keys(listing, &vec![]);
    assert_eq!(keys.len(), 1);
    assert_eq!(keys[0].fingerprint, "F1");
    assert_eq!(keys[0].uid, "8-bit key");
}

#[test]
fn empty_listing_has_no_keys() {
    assert!(parse_public_keys("", &vec![]).is_empty());
    assert!(parse_secret_fprs("").is_empty());
}

#[test]
fn list_keys_marks_secret_keys() {
    let keys = list_keys(PUBLIC, SECRET).unwrap();
    assert_eq!(keys.len(), 2);
    assert!(keys[0].secret);
    assert!(!keys[1].secret);
}

#[test]
fn undecodable_uid_is_reported() {
    let listing = "pub:-:8:1:X:1:::-:::sc:\nfpr:::::::::F1:\nuid:-::::::::\\a\u{e9}x:\n";
    assert!(try_parse_public_keys(listing, &vec![]).is_none());
    assert!(list_keys(listing, "").is_none());
}

#[test]
fn colon_field_escapes_are_decoded() {
    assert_eq!(decode_gpg_colon_field("a\\3ab"), "a:b");
    assert_eq!(decode_gpg_colon_field("\\x3a"), "\\x3a");
    assert_eq!(decode_gpg_colon_field("\\+5z"), "\\+5z");
    assert_eq!(decode_gpg_colon_field("\\+f"), "\\+f");
    assert_eq!(decode_gpg_colon_field("\\c3\\a9"), "\u{e9}");
    assert_eq!(decode_gpg_colon_field("trailing\\4"), "trailing\\4");
    assert_eq!(decode_gpg_colon_field("\\5C5c"), "\\5c");
}

#[test]
fn colon_field_invalid_utf8_is_replaced() {
    assert_eq!(decode_gpg_colon_field("\\ff!"), "\u{fffd}!");
}

#[test]
fn colon_field_without_backslash_is_unchanged() {
    let s = "J\u{fc}rgen M\u{fc}ller <jm@example.org>";
    assert_eq!(decode_gpg_colon_field(s), s);
}

#[test]
fn colon_field_cut_inside_a_character_is_refused() {
    assert_eq!(try_decode_gpg_colon_field("\\a\u{e9}"), None);
    assert_eq!(try_decode_gpg_colon_field("\\\u{e9}"), Some("\\\u{e9}".to_string()));
}

#[test]
fn secret_set_only_changes_secret_marks() {
    let a = parse_public_keys(PUBLIC, &vec!["1111222233334444555566667777888899990000".to_string()]);
    let b = parse_public_keys(PUBLIC, &vec![]);
    assert_eq!(a.len(), b.len());
    for (x, y) in a.iter().zip(b.iter()) {
        assert_eq!(x.fingerprint, y.fingerprint);
        assert_eq!(x.uid, y.uid);
        assert_eq!(x.created, y.created);
        assert_eq!(x.expires, y.expires);
        assert_eq!(x.key_type, y.key_type);
        assert_eq!(x.capabilities, y.capabilities);
        assert!(!y.secret);
    }
    assert!(!a[0].secret);
    assert!(a[1].secret);
}

#[test]
fn listing_split_before_pub_parses_as_two_parts() {
    let cut = PUBLIC.find("pub:-:3072").unwrap();
    let (s1, s2) = PUBLIC.split_at(cut);
    let secret = parse_secret_fprs(SECRET);
    let whole = parse_public_keys(PUBLIC, &secret);
    let mut parts = parse_public_keys(s1, &secret);
    parts.extend(parse_public_keys(s2, &secret));
    assert_eq!(whole.len(), parts.len());
    for (x, y) in whole.iter().zip(parts.iter()) {
        assert_eq!(x.fingerprint, y.fingerprint);
        assert_eq!(x.uid, y.uid);
        assert_eq!(x.secret, y.secret);
    }
}

#[test]
fn valid_utf8_escapes_decode_to_text() {
    assert_eq!(decode_gpg_colon_field("\\c3\\b6"), "\u{f6}");
}
