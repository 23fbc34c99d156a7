//! Error types of the library, each with the human-readable message the
//! application shows for it.
use vstd::prelude::*;
use vstd::string::StringExecFns;

verus! {

/// `prefix` followed by `detail`.
pub fn prefixed(prefix: &str, detail: &str) -> (s: String)
    ensures
        s@ == prefix@ + detail@,
{
    let mut s = String::from_str(prefix);
    s.append(detail);
    s
}

/// A copy of `s`.
pub fn copy_str(s: &str) -> (r: String)
    ensures
        r@ == s@,
{
    String::from_str(s)
}

/// Errors produced by the crypto, compression and chunking layer.
#[derive(Debug)]
pub enum CoreError {
    Kdf(String),
    Encrypt,
    Decrypt,
    Compress(String),
    Decompress(String),
    Chunk(String),
    Serde(String),
}

impl CoreError {
    pub open spec fn message(&self) -> Seq<char> {
        match self {
            CoreError::Kdf(d) => "key derivation failed: "@ + d@,
            CoreError::Encrypt => "encryption failed"@,
            CoreError::Decrypt => "decryption failed (wrong password or corrupted data)"@,
            CoreError::Compress(d) => "compression failed: "@ + d@,
            CoreError::Decompress(d) => "decompression failed: "@ + d@,
            CoreError::Chunk(d) => "invalid chunk data: "@ + d@,
            CoreError::Serde(d) => "serialization failed: "@ + d@,
        }
    }

    /// The human-readable message.
    pub fn to_string(&self) -> (s: String)
        ensures
            s@ == self.message(),
    {
        match self {
            CoreError::Kdf(d) => prefixed("key derivation failed: ", d.as_str()),
            CoreError::Encrypt => copy_str("encryption failed"),
            CoreError::Decrypt => copy_str("decryption failed (wrong password or corrupted data)"),
            CoreError::Compress(d) => prefixed("compression failed: ", d.as_str()),
            CoreError::Decompress(d) => prefixed("decompression failed: ", d.as_str()),
            CoreError::Chunk(d) => prefixed("invalid chunk data: ", d.as_str()),
            CoreError::Serde(d) => prefixed("serialization failed: ", d.as_str()),
        }
    }
}

/// Errors produced by configuration, invite and group operations.
#[derive(Debug)]
pub enum ConfigError {
    Core(CoreError),
    Io(String),
    Serde(String),
    Invite(String),
    WrongPassword,
    GroupNotFound(String),
    Secret(String),
}

impl ConfigError {
    pub open spec fn message(&self) -> Seq<char> {
        match self {
            ConfigError::Core(e) => "core error: "@ + e.message(),
            ConfigError::Io(d) => "io error: "@ + d@,
            ConfigError::Serde(d) => "serialization error: "@ + d@,
            ConfigError::Invite(d) => "invalid invite: "@ + d@,
            ConfigError::WrongPassword => "wrong password or corrupted invite"@,
            ConfigError::GroupNotFound(d) => "group not found: "@ + d@,
            ConfigError::Secret(d) => "secret store error: "@ + d@,
        }
    }

    /// The human-readable message.
    pub fn to_string(&self) -> (s: String)
        ensures
            s@ == self.message(),
    {
        match self {
            ConfigError::Core(e) => {
                let inner = e.to_string();
                prefixed("core error: ", inner.as_str())
            },
            ConfigError::Io(d) => prefixed("io error: ", d.as_str()),
            ConfigError::Serde(d) => prefixed("serialization error: ", d.as_str()),
            ConfigError::Invite(d) => prefixed("invalid invite: ", d.as_str()),
            ConfigError::WrongPassword => copy_str("wrong password or corrupted invite"),
            ConfigError::GroupNotFound(d) => prefixed("group not found: ", d.as_str()),
            ConfigError::Secret(d) => prefixed("secret store error: ", d.as_str()),
        }
    }
}

impl From<CoreError> for ConfigError {
    fn from(e: CoreError) -> (r: ConfigError) {
        ConfigError::Core(e)
    }
}

impl vstd::std_specs::convert::FromSpecImpl<CoreError> for ConfigError {
    open spec fn obeys_from_spec() -> bool {
        true
    }

    open spec fn from_spec(e: CoreError) -> ConfigError {
        ConfigError::Core(e)
    }
}

/// Errors produced by game and save-folder detection.
#[derive(Debug)]
pub enum DetectError {
    Parse(String),
    Io(String),
}

impl DetectError {
    pub open spec fn message(&self) -> Seq<char> {
        match self {
            DetectError::Parse(d) => "parse error: "@ + d@,
            DetectError::Io(d) => "io error: "@ + d@,
        }
    }

    /// The human-readable message.
    pub fn to_string(&self) -> (s: String)
        ensures
            s@ == self.message(),
    {
        match self {
            DetectError::Parse(d) => prefixed("parse error: ", d.as_str()),
            DetectError::Io(d) => prefixed("io error: ", d.as_str()),
        }
    }
}

/// Errors of the save vault's storage and transport (the Discord channel).
#[derive(Debug)]
pub enum VaultError {
    NotFound,
    Transport(String),
}

impl VaultError {
    pub open spec fn message(&self) -> Seq<char> {
        match self {
            VaultError::NotFound => "not found"@,
            VaultError::Transport(d) => "transport error: "@ + d@,
        }
    }

    /// The human-readable message.
    pub fn to_string(&self) -> (s: String)
        ensures
            s@ == self.message(),
    {
        match self {
            VaultError::NotFound => copy_str("not found"),
            VaultError::Transport(d) => prefixed("transport error: ", d.as_str()),
        }
    }
}

/// Errors produced by the sync engine.
#[derive(Debug)]
pub enum SyncError {
    Vault(VaultError),
    Core(CoreError),
    Io(String),
    Pack(String),
    Serde(String),
}

impl SyncError {
    pub open spec fn message(&self) -> Seq<char> {
        match self {
            SyncError::Vault(e) => "vault error: "@ + e.message(),
            SyncError::Core(e) => "crypto error: "@ + e.message(),
            SyncError::Io(d) => "io error: "@ + d@,
            SyncError::Pack(d) => "pack error: "@ + d@,
            SyncError::Serde(d) => "serialization error: "@ + d@,
        }
    }

    /// The human-readable message.
    pub fn to_string(&self) -> (s: String)
        ensures
            s@ == self.message(),
    {
        match self {
            SyncError::Vault(e) => {
                let inner = e.to_string();
                prefixed("vault error: ", inner.as_str())
            },
            SyncError::Core(e) => {
                let inner = e.to_string();
                prefixed("crypto error: ", inner.as_str())
            },
            SyncError::Io(d) => prefixed("io error: ", d.as_str()),
            SyncError::Pack(d) => prefixed("pack error: ", d.as_str()),
            SyncError::Serde(d) => prefixed("serialization error: ", d.as_str()),
        }
    }
}

impl From<VaultError> for SyncError {
    fn from(e: VaultError) -> (r: SyncError) {
        SyncError::Vault(e)
    }
}

impl vstd::std_specs::convert::FromSpecImpl<VaultError> for SyncError {
    open spec fn obeys_from_spec() -> bool {
        true
    }

    open spec fn from_spec(e: VaultError) -> SyncError {
        SyncError::Vault(e)
    }
}

impl From<CoreError> for SyncError {
    fn from(e: CoreError) -> (r: SyncError) {
        SyncError::Core(e)
    }
}

impl vstd::std_specs::convert::FromSpecImpl<CoreError> for SyncError {
    open spec fn obeys_from_spec() -> bool {
        true
    }

    open spec fn from_spec(e: CoreError) -> SyncError {
        SyncError::Core(e)
    }
}

} // verus!
