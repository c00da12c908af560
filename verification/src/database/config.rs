//! How a store is opened.

use vstd::prelude::*;

verus! {

/// Version of the trigger set that a store is opened with unless another is
/// asked for.
pub const DEFAULT_TRIGGER_VERSION: i32 = 1;

/// The key of an encrypted store, handed over as it is: a passphrase, or raw
/// key material in the spelling that the database knows.
#[derive(Clone)]
pub struct SqlCipherKey {
    key: String,
}

impl View for SqlCipherKey {
    type V = Seq<char>;

    closed spec fn view(&self) -> Seq<char> {
        self.key@
    }
}

impl SqlCipherKey {
    /// Wraps a key.
    pub fn new(key: &str) -> (r: SqlCipherKey)
        ensures
            r@ == key@,
    {
        SqlCipherKey { key: key.to_owned() }
    }

    /// The key.
    pub fn as_str(&self) -> (r: &str)
        ensures
            r@ == self@,
    {
        self.key.as_str()
    }
}

/// What is needed to open a store, besides the parts that the consumer
/// supplies.
#[derive(Clone)]
pub struct DatabaseConfig {
    /// Where the store is; `":memory:"` for one that is not kept.
    pub path: String,
    pub key: SqlCipherKey,
    /// Whether a missing file is created.
    pub create_if_missing: bool,
    /// Version of the trigger set.
    pub trigger_version: i32,
}

/// What a consumer may choose when a table is brought under management.
#[derive(Clone, Copy, Debug, PartialEq, Eq, Structural)]
pub struct InstallCrdtOptions {
    /// Whether a table that is managed already has its triggers renewed; else
    /// it is refused.
    pub allow_reinstall: bool,
}

impl Default for InstallCrdtOptions {
    fn default() -> (r: Self)
        ensures
            !r.allow_reinstall,
    {
        InstallCrdtOptions { allow_reinstall: false }
    }
}

} // verus!
