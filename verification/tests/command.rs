use gpg_wrapper::command::{
    clipboard_import_outcome, clipboard_import_text, export_public, export_secret, parse_output,
    CommandOutput,
};

#[test]
fn successful_run_gives_its_output() {
    let out = parse_output(true, "exit status: 0", b"hello\n", b"note").ok().unwrap();
    assert_eq!(out.stdout_text, "hello\n");
    assert_eq!(out.stderr_text, "note");
}

#[test]
fn failed_run_reports_error_output() {
    let e = parse_output(false, "exit status: 2", b"out", b"  gpg: no key\n").err().unwrap();
    assert_eq!(e, "GPG failed (exit status: 2): gpg: no key");
}

#[test]
fn failed_run_falls_back_to_standard_output() {
    let e = parse_output(false, "exit status: 1", b" only out ", b" \n ").err().unwrap();
    assert_eq!(e, "GPG failed (exit status: 1): only out");
}

#[test]
fn failed_run_output_is_read_lossily() {
    let e = parse_output(false, "x", b"", b"bad \xff").err().unwrap();
    assert_eq!(e, "GPG failed (x): bad \u{fffd}");
}

#[test]
fn export_outcomes() {
    assert_eq!(export_public(true, b"KEY\r\n".to_vec(), b"ignored"), Ok(b"KEY\r\n".to_vec()));
    assert_eq!(
        export_public(false, vec![], b" gpg: nothing exported \n"),
        Err("GPG export failed: gpg: nothing exported".to_string())
    );
    assert_eq!(
        export_secret(false, vec![1], b"denied"),
        Err("GPG secret-key export failed: denied".to_string())
    );
    assert_eq!(export_secret(true, vec![1, 2], b""), Ok(vec![1, 2]));
}

#[test]
fn clipboard_text_ends_with_one_line_feed() {
    assert_eq!(clipboard_import_text("abc \n\n"), "abc\n");
    assert_eq!(clipboard_import_text("  x"), "  x\n");
    assert_eq!(clipboard_import_text(""), "\n");
}

#[test]
fn imported_public_key_counts_as_success() {
    let r = clipboard_import_outcome(Err(
        "GPG failed (exit status: 2): gpg: key X: public key \"A\" imported".to_string(),
    ));
    let o = r.ok().unwrap();
    assert!(o.stdout_text.is_empty() && o.stderr_text.is_empty());
    let r = clipboard_import_outcome(Err("GPG failed: no valid OpenPGP data found".to_string()));
    assert_eq!(r.err().unwrap(), "GPG failed: no valid OpenPGP data found");
    let r = clipboard_import_outcome(Ok(CommandOutput {
        stdout_text: "s".to_string(),
        stderr_text: "e".to_string(),
    }));
    assert_eq!(r.ok().unwrap().stdout_text, "s");
}

#[test]
fn exported_key_text_needs_utf8() {
    assert_eq!(
        gpg_wrapper::command::exported_key_text(b"-----BEGIN\r\n\xc3\xb6"),
        Ok("-----BEGIN\r\n\u{f6}".to_string())
    );
    assert_eq!(
        gpg_wrapper::command::exported_key_text(b"key \xff"),
        Err("Exported key is not valid UTF-8 text".to_string())
    );
}
