//! The choices the user makes: which key material to export, where input
//! comes from, what to do with it, and which algorithm a new key uses.
use vstd::prelude::*;

verus! {

broadcast use vstd::string::group_string_axioms;

/// Which part of a key to export.
#[derive(Clone, Copy, PartialEq, Eq, Debug, Structural)]
pub enum KeyMaterial {
    Public,
    Secret,
}

impl KeyMaterial {
    pub open spec fn label_text(self) -> Seq<char> {
        match self {
            KeyMaterial::Public => "Public"@,
            KeyMaterial::Secret => "Private / Secret"@,
        }
    }

    /// The name shown for the choice.
    pub fn label(self) -> (l: &'static str)
        ensures
            l@ == self.label_text(),
    {
        match self {
            KeyMaterial::Public => "Public",
            KeyMaterial::Secret => "Private / Secret",
        }
    }
}

/// Where the text to encrypt or decrypt comes from.
#[derive(Clone, Copy, PartialEq, Eq, Debug, Structural)]
pub enum InputSource {
    Text,
    Clipboard,
    File,
}

impl InputSource {
    pub open spec fn label_text(self) -> Seq<char> {
        match self {
            InputSource::Text => "Text field"@,
            InputSource::Clipboard => "Clipboard"@,
            InputSource::File => "File"@,
        }
    }

    /// The name shown for the choice.
    pub fn label(self) -> (l: &'static str)
        ensures
            l@ == self.label_text(),
    {
        match self {
            InputSource::Text => "Text field",
            InputSource::Clipboard => "Clipboard",
            InputSource::File => "File",
        }
    }
}

/// Whether the text is to be encrypted or decrypted.
#[derive(Clone, Copy, PartialEq, Eq, Debug, Structural)]
pub enum CryptoAction {
    Encrypt,
    Decrypt,
}

/// The algorithm of a new key.
#[derive(Clone, Copy, PartialEq, Eq, Debug, Structural)]
pub enum KeyAlgorithm {
    Rsa2048,
    Rsa3072,
    Rsa4096,
    Ed25519,
    Default,
}

impl KeyAlgorithm {
    pub open spec fn label_text(self) -> Seq<char> {
        match self {
            KeyAlgorithm::Rsa2048 => "RSA 2048-bit"@,
            KeyAlgorithm::Rsa3072 => "RSA 3072-bit"@,
            KeyAlgorithm::Rsa4096 => "RSA 4096-bit"@,
            KeyAlgorithm::Ed25519 => "Ed25519 + Curve25519"@,
            KeyAlgorithm::Default => "GnuPG default"@,
        }
    }

    /// The name shown for the choice.
    pub fn label(self) -> (l: &'static str)
        ensures
            l@ == self.label_text(),
    {
        match self {
            KeyAlgorithm::Rsa2048 => "RSA 2048-bit",
            KeyAlgorithm::Rsa3072 => "RSA 3072-bit",
            KeyAlgorithm::Rsa4096 => "RSA 4096-bit",
            KeyAlgorithm::Ed25519 => "Ed25519 + Curve25519",
            KeyAlgorithm::Default => "GnuPG default",
        }
    }

    pub open spec fn default_new_key_algo_text(self) -> Seq<char> {
        match self {
            KeyAlgorithm::Rsa2048 => "rsa2048/cert,sign+rsa2048/encr"@,
            KeyAlgorithm::Rsa3072 => "rsa3072/cert,sign+rsa3072/encr"@,
            KeyAlgorithm::Rsa4096 => "rsa4096/cert,sign+rsa4096/encr"@,
            KeyAlgorithm::Ed25519 => "ed25519/cert,sign+cv25519/encr"@,
            KeyAlgorithm::Default => "default"@,
        }
    }

    /// The `--default-new-key-algo` value that makes `--quick-generate-key`
    /// create a primary key for certification and signing together with an
    /// encryption subkey of the chosen algorithm.
    pub fn default_new_key_algo(self) -> (a: &'static str)
        ensures
            a@ == self.default_new_key_algo_text(),
    {
        match self {
            KeyAlgorithm::Rsa2048 => "rsa2048/cert,sign+rsa2048/encr",
            KeyAlgorithm::Rsa3072 => "rsa3072/cert,sign+rsa3072/encr",
            KeyAlgorithm::Rsa4096 => "rsa4096/cert,sign+rsa4096/encr",
            KeyAlgorithm::Ed25519 => "ed25519/cert,sign+cv25519/encr",
            KeyAlgorithm::Default => "default",
        }
    }
}

} // verus!
