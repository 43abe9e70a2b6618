//! Decoded records: entries, their transactions, and the account keys and
//! signatures that a transaction carries.

use vstd::prelude::*;

verus! {

/// An account key: 32 bytes.
#[derive(Clone, Copy, Debug)]
pub struct AccountKey {
    pub bytes: [u8; 32],
}

/// A transaction signature: 64 bytes.
#[derive(Clone, Copy, Debug)]
pub struct Signature {
    pub bytes: [u8; 64],
}

impl View for AccountKey {
    type V = Seq<u8>;

    open spec fn view(&self) -> Seq<u8> {
        self.bytes@
    }
}

impl View for Signature {
    type V = Seq<u8>;

    open spec fn view(&self) -> Seq<u8> {
        self.bytes@
    }
}

impl AccountKey {
    /// The key made of `bytes`.
    pub fn new(bytes: [u8; 32]) -> (r: AccountKey)
        ensures
            r@ == bytes@,
    {
        AccountKey { bytes }
    }

    /// Whether `self` and `other` are the same key.
    pub fn same_as(&self, other: &AccountKey) -> (r: bool)
        ensures
            r == (self@ == other@),
    {
        let mut i: usize = 0;
        while i < 32
            invariant
                i <= 32,
                forall|k: int| 0 <= k < i ==> self.bytes@[k] == other.bytes@[k],
            decreases 32 - i,
        {
            if self.bytes[i] != other.bytes[i] {
                return false;
            }
            i += 1;
        }
        assert(self.bytes@ =~= other.bytes@);
        true
    }
}

impl Signature {
    /// The signature made of `bytes`.
    pub fn new(bytes: [u8; 64]) -> (r: Signature)
        ensures
            r@ == bytes@,
    {
        Signature { bytes }
    }
}

/// A transaction as a mathematical value.
pub struct TransactionView {
    pub signatures: Seq<Seq<u8>>,
    pub account_keys: Seq<Seq<u8>>,
}

/// An entry as a mathematical value.
pub struct EntryView {
    pub transactions: Seq<TransactionView>,
}

/// A transaction: its signatures in order, and the account keys that its
/// message names, in order.
#[derive(Clone, Debug)]
pub struct Transaction {
    pub signatures: Vec<Signature>,
    pub account_keys: Vec<AccountKey>,
}

/// An entry: transactions in order.
#[derive(Clone, Debug)]
pub struct Entry {
    pub transactions: Vec<Transaction>,
}

impl View for Transaction {
    type V = TransactionView;

    open spec fn view(&self) -> TransactionView {
        TransactionView {
            signatures: Seq::new(self.signatures@.len(), |k: int| self.signatures@[k]@),
            account_keys: Seq::new(self.account_keys@.len(), |k: int| self.account_keys@[k]@),
        }
    }
}

impl View for Entry {
    type V = EntryView;

    open spec fn view(&self) -> EntryView {
        EntryView { transactions: Seq::new(self.transactions@.len(), |k: int| self.transactions@[k]@) }
    }
}

/// The views of a list of entries.
pub open spec fn entry_views(entries: Seq<Entry>) -> Seq<EntryView> {
    Seq::new(entries.len(), |k: int| entries[k]@)
}

} // verus!
