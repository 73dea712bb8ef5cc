//! The state of the key manager and its decisions: what each user action
//! asks `gpg` to do, and how the state changes with the answer.
use vstd::prelude::*;
use vstd::utf8::encode_utf8;
use crate::choices::{CryptoAction, InputSource, KeyAlgorithm, KeyMaterial};
use crate::colon::{key_views, Key, KeyView};
use crate::display::{
    build_uid, decimal, push_decimal, short_fingerprint, short_fingerprint_of, shortens, uid_of,
};
use crate::text::{chars_of, string_of, trim, trim_chars};

verus! {

broadcast use vstd::string::group_string_axioms;

/// The key manager's state.
pub struct GpgApp {
    pub keys: Vec<Key>,
    pub selected_fpr: Option<String>,
    pub pending_delete_fpr: Option<String>,
    pub key_material: KeyMaterial,
    pub crypto_action: CryptoAction,
    pub crypto_source: InputSource,
    pub crypto_text: String,
    pub name: String,
    pub email: String,
    pub algorithm: KeyAlgorithm,
    pub expiration: String,
    pub status: String,
    pub error: Option<String>,
}

/// The mathematical value of a [`GpgApp`].
pub struct AppView {
    pub keys: Seq<KeyView>,
    pub selected_fpr: Option<Seq<char>>,
    pub pending_delete_fpr: Option<Seq<char>>,
    pub key_material: KeyMaterial,
    pub crypto_action: CryptoAction,
    pub crypto_source: InputSource,
    pub crypto_text: Seq<char>,
    pub name: Seq<char>,
    pub email: Seq<char>,
    pub algorithm: KeyAlgorithm,
    pub expiration: Seq<char>,
    pub status: Seq<char>,
    pub error: Option<Seq<char>>,
}

/// The view of an optional text.
pub open spec fn opt_text(o: Option<String>) -> Option<Seq<char>> {
    match o {
        Some(s) => Some(s@),
        None => None,
    }
}

impl View for GpgApp {
    type V = AppView;

    open spec fn view(&self) -> AppView {
        AppView {
            keys: key_views(self.keys@),
            selected_fpr: opt_text(self.selected_fpr),
            pending_delete_fpr: opt_text(self.pending_delete_fpr),
            key_material: self.key_material,
            crypto_action: self.crypto_action,
            crypto_source: self.crypto_source,
            crypto_text: self.crypto_text@,
            name: self.name@,
            email: self.email@,
            algorithm: self.algorithm,
            expiration: self.expiration@,
            status: self.status@,
            error: opt_text(self.error),
        }
    }
}

impl AppView {
    /// The state after a failed operation: the error shown and the status
    /// "Operation failed".
    pub open spec fn failed(self, e: Seq<char>) -> AppView {
        AppView { error: Some(e), status: "Operation failed"@, ..self }
    }

    /// The state after a successful operation: no error and the given status.
    pub open spec fn succeeded(self, status: Seq<char>) -> AppView {
        AppView { error: None, status, ..self }
    }

    /// The state with no deletion waiting for confirmation.
    pub open spec fn without_pending(self) -> AppView {
        AppView { pending_delete_fpr: None, ..self }
    }
}

/// Index of the first key with fingerprint `f`.
pub open spec fn first_with_fpr(keys: Seq<KeyView>, f: Seq<char>) -> Option<int>
    decreases keys.len(),
{
    if keys.len() == 0 {
        None
    } else {
        match first_with_fpr(keys.drop_last(), f) {
            Some(i) => Some(i),
            None => if keys.last().fingerprint == f {
                Some(keys.len() - 1)
            } else {
                None
            },
        }
    }
}

/// The selection kept when the key list is reloaded: the same fingerprint if
/// a key still has it, else the first key's, else none.
pub open spec fn kept_selection(old_sel: Option<Seq<char>>, keys: Seq<KeyView>) -> Option<
    Seq<char>,
> {
    match old_sel {
        Some(f) if first_with_fpr(keys, f) is Some => Some(f),
        _ => if keys.len() > 0 {
            Some(keys[0].fingerprint)
        } else {
            None
        },
    }
}

pub open spec fn no_key_selected_text() -> Seq<char> {
    "Select a key first"@
}

pub open spec fn key_gone_text() -> Seq<char> {
    "Selected key no longer exists; refresh the key list"@
}

/// The selected key, or the message shown when there is none.
pub open spec fn selection(v: AppView) -> Result<KeyView, Seq<char>> {
    match v.selected_fpr {
        None => Err(no_key_selected_text()),
        Some(f) => match first_with_fpr(v.keys, f) {
            Some(i) => Ok(v.keys[i]),
            None => Err(key_gone_text()),
        },
    }
}

/// The state right after start-up, before the key list is loaded.
pub open spec fn initial_view() -> AppView {
    AppView {
        keys: seq![],
        selected_fpr: None,
        pending_delete_fpr: None,
        key_material: KeyMaterial::Public,
        crypto_action: CryptoAction::Encrypt,
        crypto_source: InputSource::Text,
        crypto_text: seq![],
        name: seq![],
        email: seq![],
        algorithm: KeyAlgorithm::Rsa3072,
        expiration: "2y"@,
        status: "Ready"@,
        error: None,
    }
}

/// The expiration handed to `gpg`: the trimmed text, or "none" when blank.
pub open spec fn expiration_arg(e: Seq<char>) -> Seq<char> {
    if trim(e).len() == 0 {
        "none"@
    } else {
        trim(e)
    }
}

/// The `--default-new-key-algo` value used for a new key.
pub open spec fn new_key_algo_arg(a: KeyAlgorithm) -> Seq<char> {
    if a == KeyAlgorithm::Default {
        "default/cert,sign+default/encr"@
    } else {
        a.default_new_key_algo_text()
    }
}

/// The `gpg` arguments that generate a key.
pub open spec fn generate_args(a: KeyAlgorithm, uid: Seq<char>, expiration: Seq<char>) -> Seq<
    Seq<char>,
> {
    seq![
        "--default-new-key-algo"@,
        new_key_algo_arg(a),
        "--quick-generate-key"@,
        uid,
        "default"@,
        "default"@,
        expiration_arg(expiration),
    ]
}

/// The `gpg` arguments that delete a key, with its secret part if it has one.
pub open spec fn delete_args(k: KeyView) -> Seq<Seq<char>> {
    if k.secret {
        seq!["--batch"@, "--yes"@, "--delete-secret-and-public-key"@, k.fingerprint]
    } else {
        seq!["--batch"@, "--yes"@, "--delete-key"@, k.fingerprint]
    }
}

/// What encrypting or decrypting the current text asks of `gpg`: its
/// arguments and, for encryption, the recipient's user id; or the message
/// shown when it cannot start. Encryption runs in batch mode and leaves the
/// trust model to GnuPG's configuration.
pub open spec fn crypto_plan(v: AppView, action: CryptoAction) -> Result<
    (Seq<Seq<char>>, Option<Seq<char>>),
    Seq<char>,
> {
    match action {
        CryptoAction::Encrypt => if v.crypto_text.len() == 0 {
            Err("Enter a message or load one from the clipboard/file"@)
        } else {
            match selection(v) {
                Err(m) => Err(m),
                Ok(k) => Ok(
                    (
                        seq!["--batch"@, "--armor"@, "--encrypt"@, "--recipient"@, k.fingerprint],
                        Some(k.uid),
                    ),
                ),
            }
        },
        CryptoAction::Decrypt => if v.crypto_text.len() == 0 {
            Err("Enter armored ciphertext or load it from the clipboard/file"@)
        } else {
            Ok((seq!["--decrypt"@], None))
        },
    }
}

/// A key generation to run.
pub struct GenerateRequest {
    pub uid: String,
    pub args: Vec<String>,
}

/// A key deletion to run.
pub struct DeleteRequest {
    pub uid: String,
    pub args: Vec<String>,
}

/// A key export to run.
pub struct ExportRequest {
    pub fingerprint: String,
    pub uid: String,
    pub material: KeyMaterial,
}

/// An encryption or decryption to run, with the text fed to `gpg`.
pub struct CryptoRequest {
    pub args: Vec<String>,
    pub input: String,
    pub recipient_uid: Option<String>,
}

fn owned(s: &str) -> (r: String)
    ensures
        r@ == s@,
{
    s.to_owned()
}

fn concat2(a: &str, b: &str) -> (r: String)
    ensures
        r@ == a@ + b@,
{
    let mut r = a.to_owned();
    r.append(b);
    r
}

fn concat3(a: &str, b: &str, c: &str) -> (r: String)
    ensures
        r@ == a@ + b@ + c@,
{
    let mut r = a.to_owned();
    r.append(b);
    r.append(c);
    r
}

fn copy_string(s: &String) -> (r: String)
    ensures
        r@ == s@,
{
    s.clone()
}

fn push_arg(args: &mut Vec<String>, a: String)
    ensures
        final(args).deep_view() == old(args).deep_view().push(a@),
{
    let ghost before = args.deep_view();
    args.push(a);
    assert(args.deep_view() =~= before.push(a@));
}

/// Index of the first key with fingerprint `f`.
fn find_key(keys: &Vec<Key>, f: &String) -> (r: Option<usize>)
    ensures
        match r {
            Some(i) => first_with_fpr(key_views(keys@), f@) == Some(i as int) && i < keys@.len(),
            None => first_with_fpr(key_views(keys@), f@) is None,
        },
{
    let ghost kv = key_views(keys@);
    let mut i: usize = 0;
    while i < keys.len()
        invariant
            0 <= i <= keys@.len(),
            kv == key_views(keys@),
            first_with_fpr(kv.take(i as int), f@) is None,
        decreases keys@.len() - i,
    {
        proof {
            assert(kv.take(i + 1).drop_last() =~= kv.take(i as int));
        }
        if keys[i].fingerprint == *f {
            proof {
                lemma_first_with_fpr_prefix(kv, f@, i as int);
            }
            return Some(i);
        }
        i += 1;
    }
    assert(kv.take(keys@.len() as int) =~= kv);
    None
}

/// The index found for a fingerprint is that of a key with it.
pub proof fn lemma_first_with_fpr(keys: Seq<KeyView>, f: Seq<char>)
    ensures
        first_with_fpr(keys, f) matches Some(i) ==> 0 <= i < keys.len() && keys[i].fingerprint
            == f,
    decreases keys.len(),
{
    if keys.len() > 0 {
        lemma_first_with_fpr(keys.drop_last(), f);
    }
}

proof fn lemma_first_with_fpr_prefix(keys: Seq<KeyView>, f: Seq<char>, i: int)
    requires
        0 <= i < keys.len(),
        first_with_fpr(keys.take(i), f) is None,
        keys[i].fingerprint == f,
    ensures
        first_with_fpr(keys, f) == Some(i),
    decreases keys.len(),
{
    if i < keys.len() - 1 {
        assert(keys.drop_last().take(i) =~= keys.take(i));
        lemma_first_with_fpr_prefix(keys.drop_last(), f, i);
    } else {
        assert(keys.drop_last() =~= keys.take(i));
    }
}

impl Default for GpgApp {
    /// The state right after start-up, before the key list is loaded.
    fn default() -> (app: Self)
        ensures
            app@ == initial_view(),
    {
        let app = GpgApp {
            keys: Vec::new(),
            selected_fpr: None,
            pending_delete_fpr: None,
            key_material: KeyMaterial::Public,
            crypto_action: CryptoAction::Encrypt,
            crypto_source: InputSource::Text,
            crypto_text: String::new(),
            name: String::new(),
            email: String::new(),
            algorithm: KeyAlgorithm::Rsa3072,
            expiration: owned("2y"),
            status: owned("Ready"),
            error: None,
        };
        assert(key_views(app.keys@) =~= Seq::<KeyView>::empty());
        app
    }
}

impl GpgApp {
    /// Shows a failed operation.
    pub fn set_error(&mut self, e: String)
        ensures
            final(self)@ == old(self)@.failed(e@),
    {
        self.error = Some(e);
        self.status = owned("Operation failed");
    }

    fn succeed(&mut self, status: String)
        ensures
            final(self)@ == old(self)@.succeeded(status@),
    {
        self.status = status;
        self.error = None;
    }

    /// Takes in a freshly loaded key list, keeping the selection where the
    /// key is still there; or shows why it could not be loaded.
    pub fn refresh_keys(&mut self, listed: Result<Vec<Key>, String>)
        ensures
            listed matches Ok(keys) ==> final(self)@ == (AppView {
                keys: key_views(keys@),
                selected_fpr: kept_selection(old(self)@.selected_fpr, key_views(keys@)),
                ..old(self)@
            }).succeeded("Loaded "@ + decimal(keys@.len()) + " key(s)"@),
            listed matches Err(e) ==> final(self)@ == old(self)@.failed(e@),
    {
        match listed {
            Ok(keys) => {
                let keep = match &self.selected_fpr {
                    Some(f) => match find_key(&keys, f) {
                        Some(_) => Some(copy_string(f)),
                        None => None,
                    },
                    None => None,
                };
                let sel = match keep {
                    Some(f) => Some(f),
                    None => if keys.len() > 0 {
                        Some(copy_string(&keys[0].fingerprint))
                    } else {
                        None
                    },
                };
                let mut msg: Vec<char> = Vec::new();
                push_decimal(&mut msg, keys.len());
                let count = string_of(&msg);
                let status = concat3("Loaded ", count.as_str(), " key(s)");
                self.keys = keys;
                self.selected_fpr = sel;
                self.succeed(status);
            },
            Err(e) => self.set_error(e),
        }
    }

    /// The selected key, or the message shown when no key is selected or
    /// the selected one is gone.
    pub fn selected_key(&self) -> (r: Result<&Key, String>)
        ensures
            match selection(self@) {
                Ok(k) => r matches Ok(key) && key@ == k,
                Err(m) => r matches Err(e) && e@ == m,
            },
    {
        match &self.selected_fpr {
            None => Err(owned("Select a key first")),
            Some(f) => match find_key(&self.keys, f) {
                Some(i) => Ok(&self.keys[i]),
                None => Err(owned("Selected key no longer exists; refresh the key list")),
            },
        }
    }

    /// Starts a key generation: `None` (and the reason shown) when neither
    /// a name nor an email address is given.
    pub fn generate_key(&mut self) -> (r: Option<GenerateRequest>)
        ensures
            uid_of(old(self)@.name, old(self)@.email).len() == 0 ==> r is None && final(self)@
                == old(self)@.failed("Enter at least a name or an email address"@),
            uid_of(old(self)@.name, old(self)@.email).len() > 0 ==> final(self)@ == old(self)@ && (
            r matches Some(req) && req.uid@ == uid_of(old(self)@.name, old(self)@.email)
                && req.args.deep_view() == generate_args(
                old(self)@.algorithm,
                uid_of(old(self)@.name, old(self)@.email),
                old(self)@.expiration,
            )),
    {
        let uid = build_uid(self.name.as_str(), self.email.as_str());
        if uid.as_str().is_empty() {
            self.set_error(owned("Enter at least a name or an email address"));
            return None;
        }
        let exp_trimmed = trim_chars(&chars_of(self.expiration.as_str()));
        let expiration = if exp_trimmed.len() == 0 {
            owned("none")
        } else {
            string_of(&exp_trimmed)
        };
        let algo = if self.algorithm == KeyAlgorithm::Default {
            owned("default/cert,sign+default/encr")
        } else {
            owned(self.algorithm.default_new_key_algo())
        };
        let mut args: Vec<String> = Vec::new();
        push_arg(&mut args, owned("--default-new-key-algo"));
        push_arg(&mut args, algo);
        push_arg(&mut args, owned("--quick-generate-key"));
        push_arg(&mut args, copy_string(&uid));
        push_arg(&mut args, owned("default"));
        push_arg(&mut args, owned("default"));
        push_arg(&mut args, expiration);
        assert(args.deep_view() =~= generate_args(self@.algorithm, uid@, self@.expiration));
        Some(GenerateRequest { uid, args })
    }

    /// Takes in the outcome of a key generation; `true` when the key list is
    /// to be reloaded.
    pub fn generate_key_finished(&mut self, uid: &str, outcome: Result<(), String>) -> (reload:
        bool)
        ensures
            outcome is Ok ==> reload && final(self)@ == old(self)@.succeeded(
                "Key generation started/completed for "@ + uid@,
            ),
            outcome matches Err(e) ==> !reload && final(self)@ == old(self)@.failed(e@),
    {
        match outcome {
            Ok(()) => {
                self.succeed(concat2("Key generation started/completed for ", uid));
                true
            },
            Err(e) => {
                self.set_error(e);
                false
            },
        }
    }

    /// Asks for confirmation before the selected key is deleted.
    pub fn request_delete_selected(&mut self)
        ensures
            final(self)@ == delete_requested(old(self)@),
    {
        let (fingerprint, uid) = match self.selected_key() {
            Ok(key) => (copy_string(&key.fingerprint), copy_string(&key.uid)),
            Err(e) => {
                self.set_error(e);
                return ;
            },
        };
        self.pending_delete_fpr = Some(fingerprint);
        self.succeed(concat2("Confirm deletion of ", uid.as_str()));
    }

    /// Drops the deletion waiting for confirmation.
    pub fn cancel_delete(&mut self)
        ensures
            final(self)@ == delete_cancelled(old(self)@),
    {
        self.pending_delete_fpr = None;
        self.status = owned("Deletion cancelled");
    }

    /// Starts the confirmed deletion: `None` when nothing waits for
    /// confirmation, or (with the reason shown) when the key is gone.
    pub fn confirm_delete(&mut self) -> (r: Option<DeleteRequest>)
        ensures
            old(self)@.pending_delete_fpr is None ==> r is None && final(self)@ == old(self)@,
            old(self)@.pending_delete_fpr matches Some(f) ==> match first_with_fpr(
                old(self)@.keys,
                f,
            ) {
                None => r is None && final(self)@ == old(self)@.without_pending().failed(
                    key_gone_text(),
                ),
                Some(i) => final(self)@ == old(self)@ && (r matches Some(req) && req.uid@ == old(self)@.keys[i].uid && req.args.deep_view() == delete_args(old(self)@.keys[i])),
            },
    {
        let f = match &self.pending_delete_fpr {
            Some(f) => copy_string(f),
            None => {
                return None;
            },
        };
        let i = match find_key(&self.keys, &f) {
            Some(i) => i,
            None => {
                self.pending_delete_fpr = None;
                self.set_error(owned("Selected key no longer exists; refresh the key list"));
                return None;
            },
        };
        let key = &self.keys[i];
        let mut args: Vec<String> = Vec::new();
        push_arg(&mut args, owned("--batch"));
        push_arg(&mut args, owned("--yes"));
        if key.secret {
            push_arg(&mut args, owned("--delete-secret-and-public-key"));
        } else {
            push_arg(&mut args, owned("--delete-key"));
        }
        push_arg(&mut args, copy_string(&key.fingerprint));
        assert(args.deep_view() =~= delete_args(key@));
        Some(DeleteRequest { uid: copy_string(&key.uid), args })
    }

    /// Takes in the outcome of a deletion; `true` when the key list is to be
    /// reloaded.
    pub fn delete_finished(&mut self, uid: &str, outcome: Result<(), String>) -> (reload: bool)
        ensures
            outcome is Ok ==> reload && final(self)@ == old(self)@.without_pending().succeeded(
                "Deleted "@ + uid@,
            ),
            outcome matches Err(e) ==> !reload && final(self)@ == old(self)@.without_pending().failed(e@),
    {
        self.pending_delete_fpr = None;
        match outcome {
            Ok(()) => {
                self.succeed(concat2("Deleted ", uid));
                true
            },
            Err(e) => {
                self.set_error(e);
                false
            },
        }
    }

    /// Starts exporting the selected key in the chosen material.
    pub fn export_selected(&mut self) -> (r: Option<ExportRequest>)
        ensures
            selection(old(self)@) matches Err(m) ==> r is None && final(self)@ == old(self)@.failed(m),
            selection(old(self)@) matches Ok(k) ==> final(self)@ == old(self)@ && (r matches Some(req) && req.fingerprint@ == k.fingerprint && req.uid@ == k.uid && req.material == old(self)@.key_material),
    {
        let req = match self.selected_key() {
            Ok(key) => ExportRequest {
                fingerprint: copy_string(&key.fingerprint),
                uid: copy_string(&key.uid),
                material: self.key_material,
            },
            Err(e) => {
                self.set_error(e);
                return None;
            },
        };
        Some(req)
    }

    /// Starts exporting the selected key to a file; the same request as
    /// [`GpgApp::export_selected`].
    pub fn export_selected_to_file(&mut self) -> (r: Option<ExportRequest>)
        ensures
            selection(old(self)@) matches Err(m) ==> r is None && final(self)@ == old(self)@.failed(m),
            selection(old(self)@) matches Ok(k) ==> final(self)@ == old(self)@ && (r matches Some(req) && req.fingerprint@ == k.fingerprint && req.uid@ == k.uid && req.material == old(self)@.key_material),
    {
        self.export_selected()
    }

    /// Takes in the outcome of an export to the clipboard.
    pub fn export_to_clipboard_finished(&mut self, uid: &str, outcome: Result<(), String>)
        ensures
            outcome is Ok ==> final(self)@ == old(self)@.succeeded(
                "Exported "@ + old(self)@.key_material.label_text() + " key to clipboard for "@
                    + uid@,
            ),
            outcome matches Err(e) ==> final(self)@ == old(self)@.failed(e@),
    {
        match outcome {
            Ok(()) => {
                let mut s = concat3("Exported ", self.key_material.label(), " key to clipboard for ");
                s.append(uid);
                self.succeed(s);
            },
            Err(e) => self.set_error(e),
        }
    }

    /// Takes in the outcome of an export to a file.
    pub fn export_to_file_finished(&mut self, outcome: Result<(), String>)
        ensures
            outcome is Ok ==> final(self)@ == old(self)@.succeeded(
                "Exported "@ + old(self)@.key_material.label_text() + " key to file"@,
            ),
            outcome matches Err(e) ==> final(self)@ == old(self)@.failed(e@),
    {
        match outcome {
            Ok(()) => {
                let s = concat3("Exported ", self.key_material.label(), " key to file");
                self.succeed(s);
            },
            Err(e) => self.set_error(e),
        }
    }

    /// Takes in the outcome of an import from the clipboard; `true` when the
    /// key list is to be reloaded.
    pub fn import_from_clipboard_finished(&mut self, outcome: Result<(), String>) -> (reload: bool)
        ensures
            outcome is Ok ==> reload && final(self)@ == old(self)@.succeeded(
                "Imported key from clipboard"@,
            ),
            outcome matches Err(e) ==> !reload && final(self)@ == old(self)@.failed(e@),
    {
        match outcome {
            Ok(()) => {
                self.succeed(owned("Imported key from clipboard"));
                true
            },
            Err(e) => {
                self.set_error(e);
                false
            },
        }
    }

    /// Takes in the outcome of an import from the file at `path`; `true`
    /// when the key list is to be reloaded.
    pub fn import_from_file_finished(&mut self, path: &str, outcome: Result<(), String>) -> (reload:
        bool)
        ensures
            outcome is Ok ==> reload && final(self)@ == old(self)@.succeeded(
                "Imported key from "@ + path@,
            ),
            outcome matches Err(e) ==> !reload && final(self)@ == old(self)@.failed(e@),
    {
        match outcome {
            Ok(()) => {
                self.succeed(concat2("Imported key from ", path));
                true
            },
            Err(e) => {
                self.set_error(e);
                false
            },
        }
    }

    /// Takes in text loaded from the clipboard or a file as the text to
    /// encrypt or decrypt.
    pub fn crypto_input_loaded(&mut self, outcome: Result<String, String>)
        ensures
            outcome matches Ok(t) ==> final(self)@ == (AppView { crypto_text: t@, ..old(self)@ }),
            outcome matches Err(e) ==> final(self)@ == old(self)@.failed(e@),
    {
        match outcome {
            Ok(t) => {
                self.crypto_text = t;
            },
            Err(e) => self.set_error(e),
        }
    }

    fn plan_crypto(&mut self, action: CryptoAction) -> (r: Option<CryptoRequest>)
        ensures
            crypto_plan(old(self)@, action) matches Err(m) ==> r is None && final(self)@ == old(self)@.failed(m),
            crypto_plan(old(self)@, action) matches Ok(p) ==> final(self)@ == old(self)@ && (
            r matches Some(req) && req.args.deep_view() == p.0 && req.input@ == old(self)@.crypto_text && opt_text(req.recipient_uid) == p.1),
    {
        let input = copy_string(&self.crypto_text);
        let mut args: Vec<String> = Vec::new();
        match action {
            CryptoAction::Encrypt => {
                if input.as_str().is_empty() {
                    self.set_error(owned("Enter a message or load one from the clipboard/file"));
                    return None;
                }
                let (fpr, uid) = match self.selected_key() {
                    Ok(k) => (copy_string(&k.fingerprint), copy_string(&k.uid)),
                    Err(e) => {
                        self.set_error(e);
                        return None;
                    },
                };
                push_arg(&mut args, owned("--batch"));
                push_arg(&mut args, owned("--armor"));
                push_arg(&mut args, owned("--encrypt"));
                push_arg(&mut args, owned("--recipient"));
                push_arg(&mut args, fpr);
                assert(args.deep_view() =~= crypto_plan(self@, action)->Ok_0.0);
                Some(CryptoRequest { args, input, recipient_uid: Some(uid) })
            },
            CryptoAction::Decrypt => {
                if input.as_str().is_empty() {
                    self.set_error(
                        owned("Enter armored ciphertext or load it from the clipboard/file"),
                    );
                    return None;
                }
                push_arg(&mut args, owned("--decrypt"));
                assert(args.deep_view() =~= crypto_plan(self@, action)->Ok_0.0);
                Some(CryptoRequest { args, input, recipient_uid: None })
            },
        }
    }

    /// Starts encrypting the text for the selected key.
    pub fn encrypt(&mut self) -> (r: Option<CryptoRequest>)
        ensures
            crypto_plan(old(self)@, CryptoAction::Encrypt) matches Err(m) ==> r is None && final(self)@ == old(self)@.failed(m),
            crypto_plan(old(self)@, CryptoAction::Encrypt) matches Ok(p) ==> final(self)@ == old(self)@ && (r matches Some(req) && req.args.deep_view() == p.0 && req.input@ == old(self)@.crypto_text && opt_text(req.recipient_uid) == p.1),
    {
        self.plan_crypto(CryptoAction::Encrypt)
    }

    /// Starts decrypting the text.
    pub fn decrypt(&mut self) -> (r: Option<CryptoRequest>)
        ensures
            crypto_plan(old(self)@, CryptoAction::Decrypt) matches Err(m) ==> r is None && final(self)@ == old(self)@.failed(m),
            crypto_plan(old(self)@, CryptoAction::Decrypt) matches Ok(p) ==> final(self)@ == old(self)@ && (r matches Some(req) && req.args.deep_view() == p.0 && req.input@ == old(self)@.crypto_text && opt_text(req.recipient_uid) == p.1),
    {
        self.plan_crypto(CryptoAction::Decrypt)
    }

    /// Starts the chosen action on the text.
    pub fn run_crypto(&mut self) -> (r: Option<CryptoRequest>)
        ensures
            crypto_plan(old(self)@, old(self)@.crypto_action) matches Err(m) ==> r is None
                && final(self)@ == old(self)@.failed(m),
            crypto_plan(old(self)@, old(self)@.crypto_action) matches Ok(p) ==> final(self)@
                == old(self)@ && (r matches Some(req) && req.args.deep_view() == p.0
                && req.input@ == old(self)@.crypto_text && opt_text(req.recipient_uid) == p.1),
    {
        match self.crypto_action {
            CryptoAction::Encrypt => self.encrypt(),
            CryptoAction::Decrypt => self.decrypt(),
        }
    }

    /// Takes in the outcome of an encryption or decryption: its output
    /// replaces the text. `true` when the output is also to be copied to the
    /// clipboard, because the input came from there.
    pub fn crypto_finished(&mut self, request: &CryptoRequest, outcome: Result<String, String>) -> (copy:
        bool)
        ensures
            outcome matches Ok(out) ==> copy == (old(self)@.crypto_source == InputSource::Clipboard)
                && final(self)@ == (AppView { crypto_text: out@, ..old(self)@ }).succeeded(
                match opt_text(request.recipient_uid) {
                    Some(u) => "Encrypted for "@ + u,
                    None => "Decrypted message"@,
                },
            ),
            outcome matches Err(e) ==> !copy && final(self)@ == old(self)@.failed(e@),
    {
        match outcome {
            Ok(out) => {
                self.crypto_text = out;
                let status = match &request.recipient_uid {
                    Some(u) => concat2("Encrypted for ", u.as_str()),
                    None => owned("Decrypted message"),
                };
                self.succeed(status);
                self.crypto_source == InputSource::Clipboard
            },
            Err(e) => {
                self.set_error(e);
                false
            },
        }
    }

    /// Takes in the outcome of copying the output to the clipboard.
    pub fn crypto_copied(&mut self, outcome: Result<(), String>)
        ensures
            outcome is Ok ==> final(self)@ == (AppView {
                status: old(self)@.status + " and copied to clipboard"@,
                ..old(self)@
            }),
            outcome matches Err(e) ==> final(self)@ == old(self)@.failed(e@),
    {
        match outcome {
            Ok(()) => self.status.append(" and copied to clipboard"),
            Err(e) => self.set_error(e),
        }
    }

    /// Takes in the outcome of copying the text to the clipboard.
    pub fn copy_crypto_output(&mut self, outcome: Result<(), String>)
        ensures
            outcome is Ok ==> final(self)@ == old(self)@.succeeded("Copied text to clipboard"@),
            outcome matches Err(e) ==> final(self)@ == old(self)@.failed(e@),
    {
        match outcome {
            Ok(()) => self.succeed(owned("Copied text to clipboard")),
            Err(e) => self.set_error(e),
        }
    }

    /// The file name offered when the output is saved.
    pub fn crypto_output_file_name(&self) -> (n: &'static str)
        ensures
            self.crypto_action == CryptoAction::Encrypt ==> n@ == "encrypted.asc"@,
            self.crypto_action == CryptoAction::Decrypt ==> n@ == "decrypted.txt"@,
    {
        match self.crypto_action {
            CryptoAction::Encrypt => "encrypted.asc",
            CryptoAction::Decrypt => "decrypted.txt",
        }
    }

    /// Takes in the outcome of saving the text to the file at `path`.
    pub fn save_crypto_output_finished(&mut self, path: &str, outcome: Result<(), String>)
        ensures
            outcome is Ok ==> final(self)@ == old(self)@.succeeded("Saved "@ + path@),
            outcome matches Err(e) ==> final(self)@ == old(self)@.failed(
                "Write "@ + path@ + ": "@ + e@,
            ),
    {
        match outcome {
            Ok(()) => self.succeed(concat2("Saved ", path)),
            Err(e) => {
                let mut m = concat3("Write ", path, ": ");
                m.append(e.as_str());
                self.set_error(m);
            },
        }
    }

    /// Whether the selected key has a secret part.
    pub fn selected_has_secret_key(&self) -> (b: bool)
        ensures
            b == (selection(self@) matches Ok(k) && k.secret),
    {
        match self.selected_key() {
            Ok(k) => k.secret,
            Err(_) => false,
        }
    }

    /// Falls back to exporting the public part when the selected key has no
    /// secret part.
    pub fn keep_key_material_available(&mut self)
        ensures
            final(self)@ == material_checked(old(self)@),
    {
        if !self.selected_has_secret_key() && self.key_material == KeyMaterial::Secret {
            self.key_material = KeyMaterial::Public;
        }
    }

    /// The warning shown while a deletion waits for confirmation.
    pub fn pending_delete_warning(&self) -> (w: Option<String>)
        ensures
            match self@.pending_delete_fpr {
                Some(f) => match first_with_fpr(self@.keys, f) {
                    Some(i) => w matches Some(t) && t@ == "Warning: deleting \""@
                        + self@.keys[i].uid + "\" cannot be undone."@,
                    None => w is None,
                },
                None => w is None,
            },
    {
        match &self.pending_delete_fpr {
            Some(f) => match find_key(&self.keys, f) {
                Some(i) => Some(
                    concat3(
                        "Warning: deleting \"",
                        self.keys[i].uid.as_str(),
                        "\" cannot be undone.",
                    ),
                ),
                None => None,
            },
            None => None,
        }
    }

    /// The line above the text: the recipient when encrypting, a note on
    /// secret keys when decrypting.
    pub fn recipient_line(&self) -> (l: String)
        requires
            self@.crypto_action == CryptoAction::Encrypt ==> (selection(self@) matches Ok(k)
                ==> shortens(encode_utf8(k.fingerprint))),
        ensures
            self@.crypto_action == CryptoAction::Decrypt ==> l@
                == "Decrypt uses available secret keys via GnuPG/pinentry"@,
            self@.crypto_action == CryptoAction::Encrypt ==> l@ == match selection(self@) {
                Ok(k) => "Recipient: "@ + k.uid + " ("@ + short_fingerprint_of(
                    encode_utf8(k.fingerprint),
                ) + ")"@,
                Err(_) => "Recipient: select a key in the key list"@,
            },
    {
        if self.crypto_action == CryptoAction::Decrypt {
            return owned("Decrypt uses available secret keys via GnuPG/pinentry");
        }
        match self.selected_key() {
            Ok(k) => {
                let short = short_fingerprint(k.fingerprint.as_str());
                let mut l = concat3("Recipient: ", k.uid.as_str(), " (");
                l.append(short.as_str());
                l.append(")");
                l
            },
            Err(_) => owned("Recipient: select a key in the key list"),
        }
    }
}

/// The state after the selected key is marked for deletion, or after the
/// reason it cannot be is shown.
pub open spec fn delete_requested(v: AppView) -> AppView {
    match selection(v) {
        Err(m) => v.failed(m),
        Ok(k) => (AppView { pending_delete_fpr: Some(k.fingerprint), ..v }).succeeded(
            "Confirm deletion of "@ + k.uid,
        ),
    }
}

/// The state after a deletion waiting for confirmation is dropped.
pub open spec fn delete_cancelled(v: AppView) -> AppView {
    AppView { status: "Deletion cancelled"@, ..v.without_pending() }
}

/// The two states agree on everything but the status line, the error and
/// the deletion waiting for confirmation.
pub open spec fn same_data(a: AppView, b: AppView) -> bool {
    &&& a.keys == b.keys
    &&& a.selected_fpr == b.selected_fpr
    &&& a.key_material == b.key_material
    &&& a.crypto_action == b.crypto_action
    &&& a.crypto_source == b.crypto_source
    &&& a.crypto_text == b.crypto_text
    &&& a.name == b.name
    &&& a.email == b.email
    &&& a.algorithm == b.algorithm
    &&& a.expiration == b.expiration
}

/// Cancelling a requested deletion leaves no deletion waiting and the keys,
/// the selection and every input as they were; nothing is deleted.
pub proof fn lemma_cancel_undoes_delete_request(v: AppView)
    ensures
        delete_cancelled(delete_requested(v)).pending_delete_fpr is None,
        same_data(delete_cancelled(delete_requested(v)), v),
{
}

/// The state with the public part chosen for export where the selected key
/// has no secret part.
pub open spec fn material_checked(v: AppView) -> AppView {
    if !(selection(v) matches Ok(k) && k.secret) && v.key_material == KeyMaterial::Secret {
        AppView { key_material: KeyMaterial::Public, ..v }
    } else {
        v
    }
}

/// Once the material is checked, the secret part is chosen for export only
/// when the selected key has one.
pub proof fn lemma_secret_export_needs_secret_key(v: AppView)
    ensures
        material_checked(v).key_material == KeyMaterial::Secret ==> (selection(
            material_checked(v),
        ) matches Ok(k) && k.secret),
{
}

proof fn lemma_first_with_fpr_found(keys: Seq<KeyView>, j: int)
    requires
        0 <= j < keys.len(),
    ensures
        first_with_fpr(keys, keys[j].fingerprint) is Some,
    decreases keys.len(),
{
    if j < keys.len() - 1 {
        lemma_first_with_fpr_found(keys.drop_last(), j);
    }
}

/// After the key list is reloaded, a key is selected exactly when the list
/// is not empty, and the selected fingerprint is that of a listed key.
pub proof fn lemma_reload_keeps_a_listed_selection(old_sel: Option<Seq<char>>, keys: Seq<KeyView>)
    ensures
        kept_selection(old_sel, keys) is None <==> keys.len() == 0,
        kept_selection(old_sel, keys) matches Some(f) ==> first_with_fpr(keys, f) is Some,
{
    if keys.len() > 0 {
        lemma_first_with_fpr_found(keys, 0);
    }
}

/// The entry of a key in the key list: user id, shortened fingerprint,
/// whether it is secret, and its expiry where it has one.
pub open spec fn key_list_label_text(k: KeyView) -> Seq<char> {
    k.uid + "\n"@ + short_fingerprint_of(encode_utf8(k.fingerprint)) + "\n"@ + (if k.secret {
        "Secret: yes"@
    } else {
        "Secret: no"@
    }) + (if k.expires.len() == 0 {
        seq![]
    } else {
        "  \u{2022}  Exp: "@ + k.expires
    })
}

/// The entry of a key in the key list.
pub fn key_list_label(key: &Key) -> (l: String)
    requires
        shortens(encode_utf8(key.fingerprint@)),
    ensures
        l@ == key_list_label_text(key@),
{
    let short = short_fingerprint(key.fingerprint.as_str());
    let mut l = concat3(key.uid.as_str(), "\n", short.as_str());
    l.append("\n");
    if key.secret {
        l.append("Secret: yes");
    } else {
        l.append("Secret: no");
    }
    if !key.expires.as_str().is_empty() {
        l.append("  \u{2022}  Exp: ");
        l.append(key.expires.as_str());
    } else {
        assert(l@ + Seq::<char>::empty() =~= l@);
    }
    l
}

// ---------------------------------------------------------------------------
// Laws of the requests made of gpg
// ---------------------------------------------------------------------------

/// A new key is generated with the algorithm chosen for it: for every choice
/// but GnuPG's default, the `--default-new-key-algo` argument is that
/// algorithm's own value, and no two choices give the same argument.
pub proof fn lemma_new_key_uses_chosen_algorithm(
    a: KeyAlgorithm,
    b: KeyAlgorithm,
    uid: Seq<char>,
    expiration: Seq<char>,
)
    ensures
        generate_args(a, uid, expiration)[0] == "--default-new-key-algo"@,
        a != KeyAlgorithm::Default ==> generate_args(a, uid, expiration)[1]
            == a.default_new_key_algo_text(),
        a != b ==> generate_args(a, uid, expiration)[1] != generate_args(b, uid, expiration)[1],
{
    reveal_strlit("rsa2048/cert,sign+rsa2048/encr");
    reveal_strlit("rsa3072/cert,sign+rsa3072/encr");
    reveal_strlit("rsa4096/cert,sign+rsa4096/encr");
    reveal_strlit("ed25519/cert,sign+cv25519/encr");
    reveal_strlit("default/cert,sign+default/encr");
    assert(new_key_algo_arg(KeyAlgorithm::Rsa2048)[3] == '2');
    assert(new_key_algo_arg(KeyAlgorithm::Rsa3072)[3] == '3');
    assert(new_key_algo_arg(KeyAlgorithm::Rsa4096)[3] == '4');
    assert(new_key_algo_arg(KeyAlgorithm::Ed25519)[3] == '5');
    assert(new_key_algo_arg(KeyAlgorithm::Default)[3] == 'a');
}

/// Checking the export choice against the selected key never turns a public
/// export into a secret one: a public choice stays public, a secret choice
/// stays secret exactly when the selected key has a secret part, and nothing
/// else changes.
pub proof fn lemma_material_check_only_falls_back(v: AppView)
    ensures
        v.key_material == KeyMaterial::Public ==> material_checked(v).key_material
            == KeyMaterial::Public,
        v.key_material == KeyMaterial::Secret ==> (material_checked(v).key_material
            == KeyMaterial::Secret <==> (selection(v) matches Ok(k) && k.secret)),
        material_checked(v) == (AppView { key_material: material_checked(v).key_material, ..v }),
{
}

proof fn lemma_first_with_fpr_is_first(keys: Seq<KeyView>, f: Seq<char>)
    ensures
        first_with_fpr(keys, f) is None ==> forall|j: int|
            0 <= j < keys.len() ==> #[trigger] keys[j].fingerprint != f,
        first_with_fpr(keys, f) matches Some(i) ==> forall|j: int|
            0 <= j < i ==> #[trigger] keys[j].fingerprint != f,
    decreases keys.len(),
{
    if keys.len() > 0 {
        lemma_first_with_fpr_is_first(keys.drop_last(), f);
        lemma_first_with_fpr(keys.drop_last(), f);
        assert forall|j: int| 0 <= j < keys.len() - 1 implies keys[j] == keys.drop_last()[j] by {}
    }
}

/// Encryption is for the selected key: it can start exactly when there is
/// text and a listed key has the selected fingerprint, and then the last
/// argument, after `--recipient`, is that fingerprint and the recipient shown
/// is the user id of the first listed key with it.
pub proof fn lemma_encryption_is_for_selected_key(v: AppView)
    ensures
        crypto_plan(v, CryptoAction::Encrypt) is Ok <==> (v.crypto_text.len() > 0 && (
        v.selected_fpr matches Some(f) && exists|i: int|
            0 <= i < v.keys.len() && #[trigger] v.keys[i].fingerprint == f)),
        crypto_plan(v, CryptoAction::Encrypt) matches Ok(p) ==> (v.selected_fpr matches Some(f)
            && p.0.len() == 5 && p.0[3] == "--recipient"@ && p.0[4] == f && exists|i: int|
            0 <= i < v.keys.len() && #[trigger] v.keys[i].fingerprint == f && p.1 == Some(
                v.keys[i].uid,
            ) && forall|j: int| 0 <= j < i ==> #[trigger] v.keys[j].fingerprint != f),
{
    if let Some(f) = v.selected_fpr {
        lemma_first_with_fpr(v.keys, f);
        lemma_first_with_fpr_is_first(v.keys, f);
        if let Some(i) = first_with_fpr(v.keys, f) {
            assert(v.keys[i].fingerprint == f);
        }
    }
}

/// Deletion removes the key it was asked for: the key marked for deletion is
/// the selected one, and a confirmed deletion names the key waiting for it by
/// its fingerprint, as the last argument, and takes its secret part with it
/// exactly when the key has one.
pub proof fn lemma_deletion_removes_the_pending_key(v: AppView)
    ensures
        selection(v) matches Ok(k) ==> delete_requested(v).pending_delete_fpr == Some(
            k.fingerprint,
        ),
        v.pending_delete_fpr matches Some(f) ==> (first_with_fpr(v.keys, f) matches Some(i) ==> (
        delete_args(v.keys[i]).len() == 4 && delete_args(v.keys[i])[3] == f && (delete_args(
            v.keys[i],
        )[2] == "--delete-secret-and-public-key"@ <==> v.keys[i].secret))),
{
    reveal_strlit("--delete-secret-and-public-key");
    reveal_strlit("--delete-key");
    if let Some(f) = v.pending_delete_fpr {
        lemma_first_with_fpr(v.keys, f);
    }
    assert("--delete-key"@.len() != "--delete-secret-and-public-key"@.len());
}

} // verus!
