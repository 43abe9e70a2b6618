//! From a reassembled payload to entries.

use vstd::prelude::*;
use crate::record::AccountKey;
use crate::record::Entry;
use crate::record::EntryView;
use crate::record::Signature;
use crate::record::Transaction;
use crate::record::entry_views;

verus! {

/// `bincode::ErrorKind`, the error of `bincode::deserialize`: carried through
/// as it is, never looked into.
#[verifier::external_type_specification]
#[verifier::external_body]
pub struct ExParseErrorKind(bincode::ErrorKind);

/// The entries that a payload encodes, or `None` where it encodes none: what
/// `bincode::deserialize` makes of the bytes, read as a list of entries.
pub uninterp spec fn parsed_entries(payload: Seq<u8>) -> Option<Seq<EntryView>>;

/// Why a slot could not be decoded.
#[derive(Debug)]
pub enum DecodeError {
    /// The fragments did not yield a payload; the text says why.
    Reassembly(String),
    /// The payload is not a well-formed list of entries.
    Parse(Box<bincode::ErrorKind>),
}

/// Calls `bincode::deserialize` on the payload for a list of
/// `solana_entry::entry::Entry` and hands each entry out as its transactions,
/// each transaction as its signatures and the static account keys of its
/// message, byte for byte. The contract says that the outcome is a function
/// of the payload, named `parsed_entries`; nothing else is claimed.
#[verifier::external_body]
fn parse_payload(payload: &Vec<u8>) -> (r: Result<Vec<Entry>, Box<bincode::ErrorKind>>)
    ensures
        r matches Ok(entries) ==> parsed_entries(payload@) == Some(entry_views(entries@)),
        r is Err ==> parsed_entries(payload@) is None,
{
    let entries: Vec<solana_entry::entry::Entry> = bincode::deserialize(payload)?;
    Ok(entries.iter().map(|e| Entry {
        transactions: e.transactions.iter().map(|t| Transaction {
            signatures: t.signatures.iter().map(|s| Signature { bytes: (*s).into() }).collect(),
            account_keys: t.message.static_account_keys().iter().map(|k| AccountKey {
                bytes: k.to_bytes(),
            }).collect(),
        }).collect(),
    }).collect())
}

/// Parses a reassembled payload into entries.
pub fn parse_entries(payload: &Vec<u8>) -> (r: Result<Vec<Entry>, DecodeError>)
    ensures
        r matches Ok(entries) ==> parsed_entries(payload@) == Some(entry_views(entries@)),
        r is Err ==> parsed_entries(payload@) is None,
        r matches Err(e) ==> e is Parse,
{
    match parse_payload(payload) {
        Ok(entries) => Ok(entries),
        Err(e) => Err(DecodeError::Parse(e)),
    }
}

} // verus!
