use doccraft::config::{clean_entries, preserve_secrets, redacted, validate, Observed, SettingsFault};
use doccraft::model::{Settings, TaskConfig};
use doccraft::vault::{Vault, VaultFault};

const FINE: Observed = Observed {
    roots_exist: true,
    prices_valid: true,
};

#[test]
fn reject_unsafe_settings() {
    let mut s = Settings::default();
    s.llm.context_limit = 200001;
    assert!(validate(&s, &FINE).is_err());
    s = Settings::default();
    s.db.database = "mysql".into();
    assert!(validate(&s, &FINE).is_err());
    s = Settings::default();
    s.llm.max_output_tokens = 190000;
    assert!(validate(&s, &FINE).is_err());
}

fn fault(change: fn(&mut Settings)) -> Option<SettingsFault> {
    let mut s = Settings::default();
    change(&mut s);
    validate(&s, &FINE).err()
}

#[test]
fn every_rule_of_settings_is_named() {
    assert_eq!(fault(|_| {}), None);
    assert_eq!(fault(|s| s.retention_days = 0), Some(SettingsFault::Retention));
    assert_eq!(fault(|s| s.db.database = "a-b".into()), Some(SettingsFault::DatabaseName));
    assert_eq!(fault(|s| s.db.database = "other".into()), Some(SettingsFault::Database));
    assert_eq!(fault(|s| s.max_jobs = 9), Some(SettingsFault::Concurrency));
    assert_eq!(fault(|s| s.max_files = 0), Some(SettingsFault::SourceSize));
    assert_eq!(fault(|s| s.llm.safety_percent = 81), Some(SettingsFault::Context));
    assert_eq!(
        fault(|s| {
            s.llm.context_limit = 20_000;
            s.llm.max_output_tokens = 15_488;
        }),
        Some(SettingsFault::NoRoom)
    );
    assert_eq!(fault(|s| s.llm.token_mode = "server".into()), Some(SettingsFault::TokenMode));
    assert_eq!(fault(|s| s.llm.output_parameter = "n".into()), Some(SettingsFault::OutputParameter));
    assert_eq!(fault(|s| s.llm.reasoning = "maybe".into()), Some(SettingsFault::Reasoning));
    assert_eq!(fault(|s| s.llm.effort = "none".into()), Some(SettingsFault::Effort));
    assert_eq!(fault(|s| s.llm.proxy_mode = "custom".into()), Some(SettingsFault::Proxy));
    assert_eq!(fault(|s| s.llm.retries = 7), Some(SettingsFault::Limits));
    assert_eq!(fault(|s| s.llm.base_url = "nowhere".into()), Some(SettingsFault::Url));
    assert_eq!(
        fault(|s| s.llm.base_url = "http://u:p@host/v1".into()),
        Some(SettingsFault::UrlParts)
    );
    assert_eq!(fault(|s| s.llm.base_url = "ftp://host/v1".into()), Some(SettingsFault::UrlParts));
    let s = Settings::default();
    let no_roots = Observed { roots_exist: false, ..FINE };
    assert_eq!(validate(&s, &no_roots).err(), Some(SettingsFault::Roots));
    let bad_prices = Observed { prices_valid: false, ..FINE };
    assert_eq!(validate(&s, &bad_prices).err(), Some(SettingsFault::Prices));
    assert_eq!(SettingsFault::Url.message(), "Invalid API URL");
}

#[test]
fn secrets_are_hidden_and_come_back() {
    let mut s = Settings::default();
    s.db.password = "private".into();
    s.llm.proxy_password = "********".into();
    let shown = redacted(s.clone());
    assert_eq!(shown.db.password, "********");
    assert_eq!(shown.llm.api_key, "");
    let mut edited = shown;
    edited.max_jobs = 4;
    edited.llm.api_key = "new".into();
    preserve_secrets(&mut edited, &s);
    assert_eq!(edited.db.password, "private");
    assert_eq!(edited.llm.api_key, "new");
    assert_eq!(edited.llm.proxy_password, "********");
    assert_eq!(edited.max_jobs, 4);
}

#[test]
fn blank_entries_are_dropped() {
    let list = vec![" a ".to_string(), " ".to_string(), "b".to_string()];
    assert_eq!(clean_entries(&list), vec!["a", "b"]);
}

fn vault() -> Vault {
    Vault::with_key(&vec![7u8; 32], "dir".into()).ok().expect("vault")
}

#[test]
fn encrypted_text_round_trips_and_tampering_is_noticed() {
    let vault = vault();
    let secret = "private-test-value 비밀";
    let stored = vault.encrypt(secret).ok().expect("encrypt");
    assert!(!stored.contains("private-test-value"));
    assert_eq!(vault.decrypt(&stored).ok().expect("decrypt"), secret);
    assert_eq!(vault.decrypt("aW52YWxpZA==").err(), Some(VaultFault::TooShort));
    assert_eq!(vault.decrypt("no base64!").err(), Some(VaultFault::Base64));
    let other = Vault::with_key(&vec![8u8; 32], "dir".into()).ok().expect("vault");
    assert_eq!(other.decrypt(&stored).err(), Some(VaultFault::Decryption));
    assert_eq!(
        Vault::with_key(&vec![7u8; 31], "dir".into()).err(),
        Some(VaultFault::Key)
    );
}

#[test]
fn a_nonce_decides_what_is_written() {
    let vault = vault();
    let a = vault.encrypt_with(&[1u8; 12], "text").ok().expect("encrypt");
    let b = vault.encrypt_with(&[1u8; 12], "text").ok().expect("encrypt");
    let c = vault.encrypt_with(&[2u8; 12], "text").ok().expect("encrypt");
    assert_eq!(a, b);
    assert_ne!(a, c);
    assert_eq!(vault.decrypt(&c).ok().expect("decrypt"), "text");
}

#[test]
fn defaults_are_those_of_a_new_installation() {
    let s = Settings::default();
    assert_eq!((s.max_jobs, s.max_file_bytes, s.retention_days), (2, 20 * 1024 * 1024, 30));
    assert_eq!(s.llm.base_url, "http://127.0.0.1:8000/v1");
    let t = TaskConfig::default();
    assert_eq!((t.max_iterations, t.max_seconds, t.max_tokens), (3, 7200, 2_000_000));
    assert_eq!(t.language, "한국어");
}
