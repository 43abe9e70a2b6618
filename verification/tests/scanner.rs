use shredscan::record::{AccountKey, Entry, Signature, Transaction};
use shredscan::scanner::{names_key, scan};

fn key(n: u8) -> AccountKey {
    AccountKey::new([n; 32])
}

fn signature(n: u8) -> Signature {
    Signature::new([n; 64])
}

fn transaction(signatures: &[u8], keys: &[u8]) -> Transaction {
    Transaction {
        signatures: signatures.iter().map(|n| signature(*n)).collect(),
        account_keys: keys.iter().map(|n| key(*n)).collect(),
    }
}

#[test]
fn account_keys_compare_byte_by_byte() {
    let mut other = [7u8; 32];
    assert!(key(7).same_as(&AccountKey::new(other)));
    other[31] = 8;
    assert!(!key(7).same_as(&AccountKey::new(other)));
}

#[test]
fn transaction_names_the_keys_it_lists() {
    let t = transaction(&[1], &[3, 4, 5]);
    assert!(names_key(&t, &key(3)));
    assert!(names_key(&t, &key(5)));
    assert!(!names_key(&t, &key(6)));
    assert!(!names_key(&transaction(&[1], &[]), &key(3)));
}

#[test]
fn single_referencing_transaction_gives_one_event() {
    let entries = vec![
        Entry { transactions: vec![transaction(&[10], &[1, 2]), transaction(&[11], &[2, 3])] },
        Entry { transactions: vec![] },
        Entry {
            transactions: vec![
                transaction(&[12], &[4]),
                transaction(&[13, 14], &[5, 9, 6]),
                transaction(&[15], &[7]),
            ],
        },
    ];
    let events = scan(&entries, &key(9), 77, 123_456);
    assert_eq!(events.len(), 1);
    assert_eq!(events[0].signature.bytes, [13u8; 64]);
    assert_eq!(events[0].timestamp, 123_456);
    assert_eq!(events[0].slot, 77);
}

#[test]
fn events_follow_entry_order_then_transaction_order() {
    let entries = vec![
        Entry { transactions: vec![transaction(&[1], &[9]), transaction(&[2], &[8])] },
        Entry { transactions: vec![transaction(&[3], &[8, 9]), transaction(&[4], &[9])] },
        Entry { transactions: vec![transaction(&[5], &[9, 9])] },
    ];
    let events = scan(&entries, &key(9), 1, 0);
    let firsts: Vec<u8> = events.iter().map(|e| e.signature.bytes[0]).collect();
    assert_eq!(firsts, vec![1, 3, 4, 5]);
}

#[test]
fn transaction_without_a_signature_is_passed_over() {
    let entries =
        vec![Entry { transactions: vec![transaction(&[], &[9]), transaction(&[2], &[9])] }];
    let events = scan(&entries, &key(9), 1, 0);
    assert_eq!(events.len(), 1);
    assert_eq!(events[0].signature.bytes, [2u8; 64]);
}

#[test]
fn nothing_is_reported_where_nothing_references_the_target() {
    let entries = vec![Entry { transactions: vec![transaction(&[1], &[1, 2, 3])] }];
    assert!(scan(&entries, &key(9), 1, 0).is_empty());
    assert!(scan(&Vec::new(), &key(9), 1, 0).is_empty());
}
