//! What a finished `gpg` run means: its text output, or the error to show.
use vstd::prelude::*;
use vstd::utf8::{decode_utf8, valid_utf8};
use crate::colon::{text_from_utf8_lossy, text_of_bytes};
use crate::text::{
    chars_of, contains_sub, find_chars, string_of, trim, trim_chars, trim_end,
    trim_end_chars,
};

verus! {

broadcast use vstd::string::group_string_axioms;

/// The text a `gpg` run wrote to its standard output and error streams.
pub struct CommandOutput {
    pub stdout_text: String,
    pub stderr_text: String,
}

/// The detail of a failed run: its trimmed error output, or its trimmed
/// standard output where the error output is blank.
pub open spec fn failure_detail(out_text: Seq<char>, err_text: Seq<char>) -> Seq<char> {
    if trim(err_text).len() == 0 {
        trim(out_text)
    } else {
        trim(err_text)
    }
}

/// The outcome of a `gpg` run that exited with `success`, exit status text
/// `status` and the given output bytes: the output as text, or the error
/// "GPG failed (status): detail".
pub fn parse_output(success: bool, status: &str, stdout: &[u8], stderr: &[u8]) -> (r: Result<
    CommandOutput,
    String,
>)
    ensures
        success ==> (r matches Ok(o) && o.stdout_text@ == text_of_bytes(stdout@) && o.stderr_text@
            == text_of_bytes(stderr@)),
        !success ==> (r matches Err(m) && m@ == "GPG failed ("@ + status@ + "): "@ + failure_detail(
            text_of_bytes(stdout@),
            text_of_bytes(stderr@),
        )),
{
    let stdout_text = text_from_utf8_lossy(stdout);
    let stderr_text = text_from_utf8_lossy(stderr);
    if !success {
        let err_trimmed = trim_chars(&chars_of(stderr_text.as_str()));
        let detail = if err_trimmed.len() == 0 {
            trim_chars(&chars_of(stdout_text.as_str()))
        } else {
            err_trimmed
        };
        let mut m = "GPG failed (".to_owned();
        m.append(status);
        m.append("): ");
        let d = string_of(&detail);
        m.append(d.as_str());
        return Err(m);
    }
    Ok(CommandOutput { stdout_text, stderr_text })
}

fn export_outcome(prefix: &str, success: bool, stdout: Vec<u8>, stderr: &[u8]) -> (r: Result<
    Vec<u8>,
    String,
>)
    ensures
        success ==> r == Ok::<Vec<u8>, String>(stdout),
        !success ==> (r matches Err(m) && m@ == prefix@ + trim(text_of_bytes(stderr@))),
{
    if success {
        return Ok(stdout);
    }
    let text = text_from_utf8_lossy(stderr);
    let t = string_of(&trim_chars(&chars_of(text.as_str())));
    let mut m = prefix.to_owned();
    m.append(t.as_str());
    Err(m)
}

/// The outcome of `gpg --armor --export`: the exported bytes unchanged, or
/// "GPG export failed: " and the trimmed error output.
pub fn export_public(success: bool, stdout: Vec<u8>, stderr: &[u8]) -> (r: Result<Vec<u8>, String>)
    ensures
        success ==> r == Ok::<Vec<u8>, String>(stdout),
        !success ==> (r matches Err(m) && m@ == "GPG export failed: "@ + trim(text_of_bytes(stderr@))),
{
    export_outcome("GPG export failed: ", success, stdout, stderr)
}

/// The outcome of `gpg --armor --export-secret-keys`: the exported bytes
/// unchanged, or "GPG secret-key export failed: " and the trimmed error
/// output.
pub fn export_secret(success: bool, stdout: Vec<u8>, stderr: &[u8]) -> (r: Result<Vec<u8>, String>)
    ensures
        success ==> r == Ok::<Vec<u8>, String>(stdout),
        !success ==> (r matches Err(m) && m@ == "GPG secret-key export failed: "@ + trim(
            text_of_bytes(stderr@),
        )),
{
    export_outcome("GPG secret-key export failed: ", success, stdout, stderr)
}

/// The text imported from the clipboard: its trailing white space replaced
/// by a single line feed.
pub fn clipboard_import_text(text: &str) -> (r: String)
    ensures
        r@ == trim_end(text@) + seq!['\n'],
{
    let mut t = trim_end_chars(&chars_of(text));
    t.push('\n');
    string_of(&t)
}

/// A failed import whose message reports that a public key was imported:
/// GnuPG exits with an error when it imports a public key but skips a
/// secret one.
pub open spec fn import_failure_is_benign(message: Seq<char>) -> bool {
    contains_sub(message, "public key"@) && contains_sub(message, "imported"@)
}

/// The outcome of importing clipboard text: a failure whose message reports
/// an imported public key counts as success with no output.
pub fn clipboard_import_outcome(result: Result<CommandOutput, String>) -> (r: Result<
    CommandOutput,
    String,
>)
    ensures
        result is Ok ==> r == result,
        result matches Err(e) ==> (import_failure_is_benign(e@) ==> (r matches Ok(o)
            && o.stdout_text@.len() == 0 && o.stderr_text@.len() == 0)),
        result matches Err(e) ==> (!import_failure_is_benign(e@) ==> r == result),
{
    match result {
        Ok(o) => Ok(o),
        Err(e) => {
            let ec = chars_of(e.as_str());
            let p1 = chars_of("public key");
            let p2 = chars_of("imported");
            let a = find_chars(&ec, &p1).is_some();
            let b = find_chars(&ec, &p2).is_some();
            if a && b {
                Ok(CommandOutput { stdout_text: String::new(), stderr_text: String::new() })
            } else {
                Err(e)
            }
        },
    }
}

/// `std::str::from_utf8`: the text of `bytes` where they are valid UTF-8,
/// as the std documentation says; `None` where they are not.
#[verifier::external_body]
fn text_from_utf8(bytes: &[u8]) -> (r: Option<String>)
    ensures
        r is Some <==> valid_utf8(bytes@),
        r matches Some(t) ==> t@ == decode_utf8(bytes@),
{
    std::str::from_utf8(bytes).ok().map(|s| s.to_owned())
}

/// The text of an exported key: the bytes read as UTF-8, or the message
/// "Exported key is not valid UTF-8 text" where they are not valid UTF-8.
pub fn exported_key_text(bytes: &[u8]) -> (r: Result<String, String>)
    ensures
        valid_utf8(bytes@) ==> (r matches Ok(t) && t@ == decode_utf8(bytes@)),
        !valid_utf8(bytes@) ==> (r matches Err(m) && m@ == "Exported key is not valid UTF-8 text"@),
{
    match text_from_utf8(bytes) {
        Some(t) => Ok(t),
        None => Err("Exported key is not valid UTF-8 text".to_owned()),
    }
}

} // verus!
