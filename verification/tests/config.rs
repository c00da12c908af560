//! Options for opening and installing.

use haex_crdt::database::config::{
    DatabaseConfig, InstallCrdtOptions, SqlCipherKey, DEFAULT_TRIGGER_VERSION,
};

#[test]
fn sql_cipher_key_round_trips_string_into_inner() {
    let k = SqlCipherKey::new("passphrase");
    assert_eq!(k.as_str(), "passphrase");
}

#[test]
fn install_crdt_options_default_disallows_reinstall() {
    let opts = InstallCrdtOptions::default();
    assert!(!opts.allow_reinstall);
}

#[test]
fn config_copies_keep_every_field() {
    let config = DatabaseConfig {
        path: ":memory:".to_string(),
        key: SqlCipherKey::new("test"),
        create_if_missing: true,
        trigger_version: DEFAULT_TRIGGER_VERSION,
    };
    let copy = config.clone();
    assert_eq!(copy.path, ":memory:");
    assert_eq!(copy.key.as_str(), "test");
    assert!(copy.create_if_missing);
    assert_eq!(copy.trigger_version, 1);
}
