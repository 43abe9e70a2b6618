use shredscan::config::{parse_account_key, Config, ConfigError};
use shredscan::slot_buffer::CollisionPolicy;

const TARGET: &str = "TSWAPaqyCSx2KABk68Shruf4rp7CxcNi8hAsbdwmHbN";

#[test]
fn account_key_is_read_from_base_58() {
    let key = parse_account_key(TARGET).unwrap();
    let expected: solana_sdk::pubkey::Pubkey = TARGET.parse().unwrap();
    assert_eq!(key.bytes, expected.to_bytes());
    assert_ne!(key.bytes, [0u8; 32]);
    let ones = parse_account_key("11111111111111111111111111111111").unwrap();
    assert_eq!(ones.bytes, [0u8; 32]);
}

#[test]
fn account_key_of_the_wrong_size_is_refused() {
    assert!(matches!(
        parse_account_key("abc"),
        Err(ConfigError::InvalidTargetKey(solana_sdk::pubkey::ParsePubkeyError::WrongSize))
    ));
    assert!(parse_account_key("").is_err());
    let long = "1".repeat(60);
    assert!(parse_account_key(&long).is_err());
}

#[test]
fn account_key_that_is_not_base_58_is_refused() {
    assert!(matches!(
        parse_account_key("TSWAPaqyCSx2KABk68Shruf4rp7CxcNi8hAsbdwmHb0"),
        Err(ConfigError::InvalidTargetKey(solana_sdk::pubkey::ParsePubkeyError::Invalid))
    ));
}

#[test]
fn options_are_kept_as_given() {
    let config = Config::new(
        8001,
        4096,
        TARGET,
        32,
        "txs.log".to_string(),
        true,
        CollisionPolicy::Overwrite,
    )
    .unwrap();
    assert_eq!(config.listen_port, 8001);
    assert_eq!(config.buffer_size, 4096);
    assert_eq!(config.target_account_key.bytes, parse_account_key(TARGET).unwrap().bytes);
    assert_eq!(config.retention_window, 32);
    assert_eq!(config.match_log_path, "txs.log");
    assert!(config.dump_entries);
    assert_eq!(config.collision_policy, CollisionPolicy::Overwrite);
}

#[test]
fn options_with_a_bad_target_key_are_refused() {
    let refused =
        Config::new(8001, 4096, "no key", 32, "txs.log".to_string(), false, CollisionPolicy::KeepFirst);
    assert!(refused.is_err());
}
