use gpg_wrapper::choices::{CryptoAction, InputSource, KeyAlgorithm, KeyMaterial};
use gpg_wrapper::colon::Key;
use gpg_wrapper::session::{key_list_label, CryptoRequest, GpgApp};

fn key(fpr: &str, uid: &str, secret: bool) -> Key {
    Key {
        fingerprint: fpr.to_string(),
        uid: uid.to_string(),
        created: "1700000000".to_string(),
        expires: String::new(),
        key_type: "22".to_string(),
        capabilities: "scESC".to_string(),
        secret,
    }
}

fn loaded() -> GpgApp {
    let mut app = GpgApp::default();
    app.refresh_keys(Ok(vec![key("F1", "Alice", true), key("F2", "Bob", false)]));
    app
}

#[test]
fn start_up_state() {
    let app = GpgApp::default();
    assert!(app.keys.is_empty());
    assert_eq!(app.selected_fpr, None);
    assert_eq!(app.key_material, KeyMaterial::Public);
    assert_eq!(app.crypto_action, CryptoAction::Encrypt);
    assert_eq!(app.crypto_source, InputSource::Text);
    assert_eq!(app.algorithm, KeyAlgorithm::Rsa3072);
    assert_eq!(app.expiration, "2y");
    assert_eq!(app.status, "Ready");
    assert_eq!(app.error, None);
}

#[test]
fn reload_selects_first_key() {
    let app = loaded();
    assert_eq!(app.selected_fpr.as_deref(), Some("F1"));
    assert_eq!(app.status, "Loaded 2 key(s)");
    assert_eq!(app.error, None);
}

#[test]
fn reload_keeps_a_listed_selection() {
    let mut app = loaded();
    app.selected_fpr = Some("F2".to_string());
    app.refresh_keys(Ok(vec![key("F0", "Zed", false), key("F2", "Bob", false)]));
    assert_eq!(app.selected_fpr.as_deref(), Some("F2"));
    app.refresh_keys(Ok(vec![key("F3", "Cy", false)]));
    assert_eq!(app.selected_fpr.as_deref(), Some("F3"));
    app.refresh_keys(Ok(vec![]));
    assert_eq!(app.selected_fpr, None);
    assert_eq!(app.status, "Loaded 0 key(s)");
}

#[test]
fn reload_failure_is_shown() {
    let mut app = loaded();
    app.refresh_keys(Err("no gpg".to_string()));
    assert_eq!(app.error.as_deref(), Some("no gpg"));
    assert_eq!(app.status, "Operation failed");
    assert_eq!(app.keys.len(), 2);
}

#[test]
fn selected_key_errors() {
    let mut app = GpgApp::default();
    assert_eq!(app.selected_key().err().unwrap(), "Select a key first");
    app.selected_fpr = Some("gone".to_string());
    assert_eq!(
        app.selected_key().err().unwrap(),
        "Selected key no longer exists; refresh the key list"
    );
    let app = loaded();
    assert_eq!(app.selected_key().ok().unwrap().uid, "Alice");
}

#[test]
fn generate_key_requires_a_name_or_email() {
    let mut app = loaded();
    app.name = "  ".to_string();
    assert!(app.generate_key().is_none());
    assert_eq!(app.error.as_deref(), Some("Enter at least a name or an email address"));
    assert_eq!(app.status, "Operation failed");
}

#[test]
fn generate_key_arguments() {
    let mut app = loaded();
    app.name = " Carol ".to_string();
    app.email = "c@x.y".to_string();
    app.expiration = "  ".to_string();
    app.algorithm = KeyAlgorithm::Ed25519;
    let req = app.generate_key().unwrap();
    assert_eq!(req.uid, "Carol <c@x.y>");
    assert_eq!(
        req.args,
        vec![
            "--default-new-key-algo",
            "ed25519/cert,sign+cv25519/encr",
            "--quick-generate-key",
            "Carol <c@x.y>",
            "default",
            "default",
            "none",
        ]
    );
    app.algorithm = KeyAlgorithm::Default;
    app.expiration = " 90d ".to_string();
    let req = app.generate_key().unwrap();
    assert_eq!(req.args[1], "default/cert,sign+default/encr");
    assert_eq!(req.args[6], "90d");
    assert!(app.generate_key_finished(&req.uid, Ok(())));
    assert_eq!(app.status, "Key generation started/completed for Carol <c@x.y>");
    assert!(!app.generate_key_finished(&req.uid, Err("boom".to_string())));
    assert_eq!(app.error.as_deref(), Some("boom"));
}

#[test]
fn delete_flow() {
    let mut app = loaded();
    assert!(app.confirm_delete().is_none());
    app.request_delete_selected();
    assert_eq!(app.pending_delete_fpr.as_deref(), Some("F1"));
    assert_eq!(app.status, "Confirm deletion of Alice");
    assert_eq!(
        app.pending_delete_warning().as_deref(),
        Some("Warning: deleting \"Alice\" cannot be undone.")
    );
    let req = app.confirm_delete().unwrap();
    assert_eq!(req.uid, "Alice");
    assert_eq!(req.args, vec!["--batch", "--yes", "--delete-secret-and-public-key", "F1"]);
    assert!(app.delete_finished(&req.uid, Ok(())));
    assert_eq!(app.pending_delete_fpr, None);
    assert_eq!(app.status, "Deleted Alice");

    app.selected_fpr = Some("F2".to_string());
    app.request_delete_selected();
    let req = app.confirm_delete().unwrap();
    assert_eq!(req.args, vec!["--batch", "--yes", "--delete-key", "F2"]);
    assert!(!app.delete_finished(&req.uid, Err("refused".to_string())));
    assert_eq!(app.pending_delete_fpr, None);
    assert_eq!(app.error.as_deref(), Some("refused"));
}

#[test]
fn delete_of_vanished_key_is_reported() {
    let mut app = loaded();
    app.pending_delete_fpr = Some("F9".to_string());
    assert!(app.confirm_delete().is_none());
    assert_eq!(app.pending_delete_fpr, None);
    assert_eq!(
        app.error.as_deref(),
        Some("Selected key no longer exists; refresh the key list")
    );
}

#[test]
fn cancel_delete_clears_pending() {
    let mut app = loaded();
    app.request_delete_selected();
    app.cancel_delete();
    assert_eq!(app.pending_delete_fpr, None);
    assert_eq!(app.status, "Deletion cancelled");
}

#[test]
fn export_flow() {
    let mut app = loaded();
    app.key_material = KeyMaterial::Secret;
    let req = app.export_selected().unwrap();
    assert_eq!(req.fingerprint, "F1");
    assert_eq!(req.material, KeyMaterial::Secret);
    app.export_to_clipboard_finished(&req.uid, Ok(()));
    assert_eq!(app.status, "Exported Private / Secret key to clipboard for Alice");
    let req = app.export_selected_to_file().unwrap();
    assert_eq!(req.uid, "Alice");
    app.export_to_file_finished(Ok(()));
    assert_eq!(app.status, "Exported Private / Secret key to file");
    app.export_to_file_finished(Err("disk full".to_string()));
    assert_eq!(app.error.as_deref(), Some("disk full"));
    let mut empty = GpgApp::default();
    assert!(empty.export_selected().is_none());
    assert_eq!(empty.error.as_deref(), Some("Select a key first"));
}

#[test]
fn secret_material_needs_a_secret_key() {
    let mut app = loaded();
    assert!(app.selected_has_secret_key());
    app.key_material = KeyMaterial::Secret;
    app.keep_key_material_available();
    assert_eq!(app.key_material, KeyMaterial::Secret);
    app.selected_fpr = Some("F2".to_string());
    assert!(!app.selected_has_secret_key());
    app.keep_key_material_available();
    assert_eq!(app.key_material, KeyMaterial::Public);
}

#[test]
fn import_outcomes() {
    let mut app = loaded();
    assert!(app.import_from_clipboard_finished(Ok(())));
    assert_eq!(app.status, "Imported key from clipboard");
    assert!(app.import_from_file_finished("/tmp/k.asc", Ok(())));
    assert_eq!(app.status, "Imported key from /tmp/k.asc");
    assert!(!app.import_from_file_finished("/tmp/k.asc", Err("bad".to_string())));
    assert_eq!(app.error.as_deref(), Some("bad"));
}

#[test]
fn encrypt_flow() {
    let mut app = loaded();
    assert!(app.encrypt().is_none());
    assert_eq!(
        app.error.as_deref(),
        Some("Enter a message or load one from the clipboard/file")
    );
    app.crypto_input_loaded(Ok("secret message".to_string()));
    assert_eq!(app.crypto_text, "secret message");
    let req = app.run_crypto().unwrap();
    assert_eq!(req.args, vec!["--batch", "--armor", "--encrypt", "--recipient", "F1"]);
    assert_eq!(req.input, "secret message");
    assert_eq!(req.recipient_uid.as_deref(), Some("Alice"));
    assert!(!app.crypto_finished(&req, Ok("-----BEGIN PGP MESSAGE-----".to_string())));
    assert_eq!(app.crypto_text, "-----BEGIN PGP MESSAGE-----");
    assert_eq!(app.status, "Encrypted for Alice");
    assert_eq!(app.error, None);
}

#[test]
fn decrypt_flow_with_clipboard_copy() {
    let mut app = loaded();
    app.crypto_action = CryptoAction::Decrypt;
    app.crypto_source = InputSource::Clipboard;
    assert!(app.decrypt().is_none());
    assert_eq!(
        app.error.as_deref(),
        Some("Enter armored ciphertext or load it from the clipboard/file")
    );
    app.crypto_text = "cipher".to_string();
    let req = app.run_crypto().unwrap();
    assert_eq!(req.args, vec!["--decrypt"]);
    assert_eq!(req.recipient_uid, None);
    assert!(app.crypto_finished(&req, Ok("plain".to_string())));
    assert_eq!(app.status, "Decrypted message");
    app.crypto_copied(Ok(()));
    assert_eq!(app.status, "Decrypted message and copied to clipboard");
    app.crypto_copied(Err("no clipboard".to_string()));
    assert_eq!(app.error.as_deref(), Some("no clipboard"));
    let req = CryptoRequest { args: vec![], input: String::new(), recipient_uid: None };
    assert!(!app.crypto_finished(&req, Err("gpg died".to_string())));
    assert_eq!(app.crypto_text, "plain");
}

#[test]
fn copy_and_save_outcomes() {
    let mut app = loaded();
    app.copy_crypto_output(Ok(()));
    assert_eq!(app.status, "Copied text to clipboard");
    assert_eq!(app.crypto_output_file_name(), "encrypted.asc");
    app.crypto_action = CryptoAction::Decrypt;
    assert_eq!(app.crypto_output_file_name(), "decrypted.txt");
    app.save_crypto_output_finished("/tmp/out.txt", Ok(()));
    assert_eq!(app.status, "Saved /tmp/out.txt");
    app.save_crypto_output_finished("/tmp/out.txt", Err("denied".to_string()));
    assert_eq!(app.error.as_deref(), Some("Write /tmp/out.txt: denied"));
}

#[test]
fn recipient_and_key_labels() {
    let mut app = loaded();
    assert_eq!(app.recipient_line(), "Recipient: Alice (F1)");
    app.selected_fpr = None;
    assert_eq!(app.recipient_line(), "Recipient: select a key in the key list");
    app.crypto_action = CryptoAction::Decrypt;
    assert_eq!(
        app.recipient_line(),
        "Decrypt uses available secret keys via GnuPG/pinentry"
    );
    let mut k = key("0123456789ABCDEF0123456789ABCDEF01234567", "Alice", true);
    assert_eq!(key_list_label(&k), "Alice\n0123456789\u{2026}EF01234567\nSecret: yes");
    k.secret = false;
    k.expires = "1800000000".to_string();
    assert_eq!(
        key_list_label(&k),
        "Alice\n0123456789\u{2026}EF01234567\nSecret: no  \u{2022}  Exp: 1800000000"
    );
}

#[test]
fn set_error_shows_failure() {
    let mut app = loaded();
    app.set_error("oops".to_string());
    assert_eq!(app.error.as_deref(), Some("oops"));
    assert_eq!(app.status, "Operation failed");
}

#[test]
fn no_trust_model_override_is_added() {
    let mut app = loaded();
    app.name = "Dan".to_string();
    let gen = app.generate_key().unwrap();
    app.request_delete_selected();
    let del = app.confirm_delete().unwrap();
    app.crypto_text = "m".to_string();
    let enc = app.encrypt().unwrap();
    let dec = app.decrypt().unwrap();
    for args in [&gen.args, &del.args, &enc.args, &dec.args] {
        assert!(args
            .iter()
            .all(|a| !a.starts_with("--trust-model") && a != "--always-trust"));
    }
}
