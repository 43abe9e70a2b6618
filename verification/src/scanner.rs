//! The pattern scanner: which transactions of a decoded slot name the target
//! account key.
//!
//! Entries are read in order, and the transactions of an entry in order. A
//! transaction that names the target among its account keys is reported by
//! its first signature. One that carries no signature has nothing to be
//! reported by and is passed over.

use vstd::prelude::*;
use crate::record::AccountKey;
use crate::record::Entry;
use crate::record::EntryView;
use crate::record::Signature;
use crate::record::Transaction;
use crate::record::TransactionView;
use crate::record::entry_views;

verus! {

/// One observation of a transaction that names the target key.
#[derive(Clone, Copy, Debug)]
pub struct MatchEvent {
    /// The first signature of the transaction.
    pub signature: Signature,
    /// When the match was observed, in milliseconds since the Unix epoch.
    pub timestamp: i64,
    /// The slot that the transaction was decoded from.
    pub slot: u64,
}

/// A match event as a mathematical value.
pub struct MatchEventView {
    pub signature: Seq<u8>,
    pub timestamp: i64,
    pub slot: u64,
}

impl View for MatchEvent {
    type V = MatchEventView;

    open spec fn view(&self) -> MatchEventView {
        MatchEventView { signature: self.signature@, timestamp: self.timestamp, slot: self.slot }
    }
}

/// The views of a list of match events.
pub open spec fn event_views(events: Seq<MatchEvent>) -> Seq<MatchEventView> {
    Seq::new(events.len(), |k: int| events[k]@)
}

/// Whether `transaction` names `target` among its account keys.
pub open spec fn references(transaction: TransactionView, target: Seq<u8>) -> bool {
    transaction.account_keys.contains(target)
}

/// The event that `transaction` gives rise to, if any.
pub open spec fn report(transaction: TransactionView, target: Seq<u8>, slot: u64, now: i64) -> Option<
    MatchEventView,
> {
    if references(transaction, target) && transaction.signatures.len() > 0 {
        Some(MatchEventView { signature: transaction.signatures[0], timestamp: now, slot })
    } else {
        None
    }
}

/// The transactions of all `entries`, in entry order and then in the order
/// within each entry.
pub open spec fn transactions_of(entries: Seq<EntryView>) -> Seq<TransactionView> {
    entries.map_values(|e: EntryView| e.transactions).flatten()
}

/// The events that a list of transactions gives rise to, in order.
pub open spec fn matches_among(
    transactions: Seq<TransactionView>,
    target: Seq<u8>,
    slot: u64,
    now: i64,
) -> Seq<MatchEventView> {
    transactions.filter_map(|t: TransactionView| report(t, target, slot, now))
}

/// The events that decoded entries give rise to, in order.
pub open spec fn matches_of(entries: Seq<EntryView>, target: Seq<u8>, slot: u64, now: i64) -> Seq<
    MatchEventView,
> {
    matches_among(transactions_of(entries), target, slot, now)
}

/// Whether `transaction` names `target` among its account keys.
pub fn names_key(transaction: &Transaction, target: &AccountKey) -> (r: bool)
    ensures
        r == references(transaction@, target@),
{
    let mut k: usize = 0;
    while k < transaction.account_keys.len()
        invariant
            k <= transaction.account_keys.len(),
            forall|a: int| 0 <= a < k ==> transaction@.account_keys[a] != target@,
        decreases transaction.account_keys.len() - k,
    {
        if transaction.account_keys[k].same_as(target) {
            assert(transaction@.account_keys[k as int] == target@);
            return true;
        }
        k += 1;
    }
    false
}

proof fn lemma_matches_push(
    transactions: Seq<TransactionView>,
    last: TransactionView,
    target: Seq<u8>,
    slot: u64,
    now: i64,
)
    ensures
        matches_among(transactions.push(last), target, slot, now) == match report(
            last,
            target,
            slot,
            now,
        ) {
            Some(e) => matches_among(transactions, target, slot, now).push(e),
            None => matches_among(transactions, target, slot, now),
        },
{
    let longer = transactions.push(last);
    assert(longer.drop_last() =~= transactions);
    assert(longer.last() == last);
    let f = |t: TransactionView| report(t, target, slot, now);
    match report(last, target, slot, now) {
        Some(e) => {
            assert(transactions.filter_map(f) + seq![e] =~= transactions.filter_map(f).push(e));
        },
        None => {},
    }
}

/// Scans decoded `entries` of `slot` for transactions that name `target`. The
/// events come in entry order, then in transaction order, and all bear the
/// time `now`.
pub fn scan(entries: &Vec<Entry>, target: &AccountKey, slot: u64, now: i64) -> (r: Vec<MatchEvent>)
    ensures
        event_views(r@) == matches_of(entry_views(entries@), target@, slot, now),
{
    let mut out: Vec<MatchEvent> = Vec::new();
    let ghost all = entry_views(entries@);
    let ghost lists = all.map_values(|e: EntryView| e.transactions);
    let mut i: usize = 0;
    assert(lists.take(0) =~= Seq::<Seq<TransactionView>>::empty());
    assert(event_views(out@) =~= Seq::<MatchEventView>::empty());
    while i < entries.len()
        invariant
            i <= entries.len(),
            all == entry_views(entries@),
            lists == all.map_values(|e: EntryView| e.transactions),
            event_views(out@) == matches_among(lists.take(i as int).flatten(), target@, slot, now),
        decreases entries.len() - i,
    {
        let entry = &entries[i];
        let ghost before = lists.take(i as int).flatten();
        let ghost here = entry@.transactions;
        let mut j: usize = 0;
        assert(before + here.take(0) =~= before);
        while j < entry.transactions.len()
            invariant
                j <= entry.transactions.len(),
                here == entry@.transactions,
                event_views(out@) == matches_among(before + here.take(j as int), target@, slot, now),
            decreases entry.transactions.len() - j,
        {
            let transaction = &entry.transactions[j];
            proof {
                lemma_matches_push(before + here.take(j as int), here[j as int], target@, slot, now);
                assert(before + here.take(j + 1) =~= (before + here.take(j as int)).push(
                    here[j as int],
                ));
                assert(transaction@ == here[j as int]);
            }
            if names_key(transaction, target) && transaction.signatures.len() > 0 {
                let ghost earlier = event_views(out@);
                let event = MatchEvent { signature: transaction.signatures[0], timestamp: now, slot };
                out.push(event);
                assert(event_views(out@) =~= earlier.push(event@));
                assert(transaction@.signatures[0] == transaction.signatures[0]@);
            }
            j += 1;
        }
        proof {
            assert(here.take(here.len() as int) =~= here);
            assert(lists.take(i + 1) =~= lists.take(i as int).push(here)) by {
                assert(lists[i as int] == all[i as int].transactions);
            }
            lists.take(i as int).lemma_flatten_push(here);
        }
        i += 1;
    }
    assert(lists.take(entries.len() as int) =~= lists);
    out
}

/// Where exactly one transaction names the target key, and it carries a
/// signature, exactly one event is reported, and it bears that transaction's
/// first signature.
pub proof fn lemma_single_match(
    entries: Seq<EntryView>,
    k: int,
    target: Seq<u8>,
    slot: u64,
    now: i64,
)
    requires
        0 <= k < transactions_of(entries).len(),
        references(transactions_of(entries)[k], target),
        transactions_of(entries)[k].signatures.len() > 0,
        forall|j: int|
            0 <= j < transactions_of(entries).len() && j != k ==> !references(
                #[trigger] transactions_of(entries)[j],
                target,
            ),
    ensures
        matches_of(entries, target, slot, now) == seq![
            MatchEventView {
                signature: transactions_of(entries)[k].signatures[0],
                timestamp: now,
                slot,
            },
        ],
{
    lemma_single_among(transactions_of(entries), k, target, slot, now);
}

proof fn lemma_none_among(transactions: Seq<TransactionView>, target: Seq<u8>, slot: u64, now: i64)
    requires
        forall|j: int|
            0 <= j < transactions.len() ==> !references(#[trigger] transactions[j], target),
    ensures
        matches_among(transactions, target, slot, now) == Seq::<MatchEventView>::empty(),
    decreases transactions.len(),
{
    if transactions.len() > 0 {
        let shorter = transactions.drop_last();
        assert forall|j: int| 0 <= j < shorter.len() implies !references(
            #[trigger] shorter[j],
            target,
        ) by {
            assert(shorter[j] == transactions[j]);
        }
        lemma_none_among(shorter, target, slot, now);
        assert(!references(transactions[transactions.len() - 1], target));
    }
}

proof fn lemma_single_among(
    transactions: Seq<TransactionView>,
    k: int,
    target: Seq<u8>,
    slot: u64,
    now: i64,
)
    requires
        0 <= k < transactions.len(),
        references(transactions[k], target),
        transactions[k].signatures.len() > 0,
        forall|j: int|
            0 <= j < transactions.len() && j != k ==> !references(
                #[trigger] transactions[j],
                target,
            ),
    ensures
        matches_among(transactions, target, slot, now) == seq![
            MatchEventView { signature: transactions[k].signatures[0], timestamp: now, slot },
        ],
    decreases transactions.len(),
{
    let shorter = transactions.drop_last();
    let event = MatchEventView { signature: transactions[k].signatures[0], timestamp: now, slot };
    assert forall|j: int| 0 <= j < shorter.len() && j != k implies !references(
        #[trigger] shorter[j],
        target,
    ) by {
        assert(shorter[j] == transactions[j]);
    }
    if k == transactions.len() - 1 {
        lemma_none_among(shorter, target, slot, now);
        assert(Seq::<MatchEventView>::empty() + seq![event] =~= seq![event]);
    } else {
        assert(shorter[k] == transactions[k]);
        lemma_single_among(shorter, k, target, slot, now);
        assert(!references(transactions[transactions.len() - 1], target));
    }
}

} // verus!
