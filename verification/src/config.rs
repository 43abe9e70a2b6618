//! The options that the pipeline is run with.

use vstd::prelude::*;
use crate::record::AccountKey;
use crate::slot_buffer::CollisionPolicy;

verus! {

/// `solana_sdk::pubkey::ParsePubkeyError`, the error of parsing a key: carried
/// through as it is, never looked into.
#[verifier::external_type_specification]
#[verifier::external_body]
pub struct ExParsePubkeyError(solana_sdk::pubkey::ParsePubkeyError);

/// The account key that a text stands for, or `None` where it stands for
/// none: what `solana_sdk::pubkey::Pubkey` parses the text to.
pub uninterp spec fn account_key_of(text: Seq<char>) -> Option<Seq<u8>>;

/// Why a set of options was refused.
#[derive(Debug)]
pub enum ConfigError {
    /// The target account key is not the base 58 text of 32 bytes.
    InvalidTargetKey(solana_sdk::pubkey::ParsePubkeyError),
}

/// The recognised options.
#[derive(Debug)]
pub struct Config {
    /// The UDP port to listen on.
    pub listen_port: u16,
    /// The size of the receive buffer in bytes.
    pub buffer_size: usize,
    /// The account key to look for.
    pub target_account_key: AccountKey,
    /// How many of the most recent slots keep their buffers.
    pub retention_window: u64,
    /// Where the match log is written.
    pub match_log_path: String,
    /// Whether the decoded entries of each slot are dumped.
    pub dump_entries: bool,
    /// What happens to a fragment whose key is taken by another payload.
    pub collision_policy: CollisionPolicy,
}

/// Parses `text` with `str::parse` as a `solana_sdk::pubkey::Pubkey` and hands
/// out its 32 bytes, or the parser's error. The contract says that the
/// outcome is a function of the text, named `account_key_of`.
#[verifier::external_body]
fn decode_key(text: &str) -> (r: Result<AccountKey, solana_sdk::pubkey::ParsePubkeyError>)
    ensures
        r matches Ok(key) ==> account_key_of(text@) == Some(key@),
        r is Err ==> account_key_of(text@) is None,
{
    let key = text.parse::<solana_sdk::pubkey::Pubkey>()?;
    Ok(AccountKey { bytes: key.to_bytes() })
}

/// Reads an account key from its base 58 text.
pub fn parse_account_key(text: &str) -> (r: Result<AccountKey, ConfigError>)
    ensures
        r matches Ok(key) ==> account_key_of(text@) == Some(key@),
        r is Err ==> account_key_of(text@) is None,
{
    match decode_key(text) {
        Ok(key) => Ok(key),
        Err(e) => Err(ConfigError::InvalidTargetKey(e)),
    }
}

impl Config {
    /// Checks the options and puts them together. The only option that can be
    /// refused is the target account key, which must be valid base 58 text
    /// for 32 bytes.
    pub fn new(
        listen_port: u16,
        buffer_size: usize,
        target_account_key: &str,
        retention_window: u64,
        match_log_path: String,
        dump_entries: bool,
        collision_policy: CollisionPolicy,
    ) -> (r: Result<Config, ConfigError>)
        ensures
            r is Ok == account_key_of(target_account_key@) is Some,
            r matches Ok(config) ==> {
                &&& config.listen_port == listen_port
                &&& config.buffer_size == buffer_size
                &&& Some(config.target_account_key@) == account_key_of(target_account_key@)
                &&& config.retention_window == retention_window
                &&& config.match_log_path == match_log_path
                &&& config.dump_entries == dump_entries
                &&& config.collision_policy == collision_policy
            },
    {
        match parse_account_key(target_account_key) {
            Ok(key) => Ok(
                Config {
                    listen_port,
                    buffer_size,
                    target_account_key: key,
                    retention_window,
                    match_log_path,
                    dump_entries,
                    collision_policy,
                },
            ),
            Err(e) => Err(e),
        }
    }
}

} // verus!
