use shredscan::record::Signature;
use shredscan::scanner::MatchEvent;
use shredscan::sink::{compose_line, log_line, TIMESTAMP_PATTERN};

#[test]
fn line_is_signature_space_quoted_time_line_feed() {
    assert_eq!(compose_line("abc", "Thu, 01 Jan"), "abc \"Thu, 01 Jan\"\n");
    assert_eq!(compose_line("", ""), " \"\"\n");
}

#[test]
fn line_of_the_zero_signature_at_the_epoch() {
    let event = MatchEvent { signature: Signature::new([0u8; 64]), timestamp: 0, slot: 1 };
    let ones = "1".repeat(64);
    assert_eq!(
        log_line(&event),
        Some(format!("{} \"Thu, 01 Jan 1970 00:00:00.000 +0000\"\n", ones))
    );
}

#[test]
fn line_writes_milliseconds_and_base_58() {
    let mut bytes = [0u8; 64];
    for (i, b) in bytes.iter_mut().enumerate() {
        *b = (i as u8).wrapping_mul(37).wrapping_add(11);
    }
    let event = MatchEvent { signature: Signature::new(bytes), timestamp: 1_709_640_000_123, slot: 1 };
    let expected_signature = solana_sdk::signature::Signature::from(bytes).to_string();
    assert_ne!(expected_signature, "1".repeat(64));
    assert_eq!(
        log_line(&event),
        Some(format!("{} \"Tue, 05 Mar 2024 12:00:00.123 +0000\"\n", expected_signature))
    );
}

#[test]
fn line_before_the_epoch() {
    let event = MatchEvent { signature: Signature::new([0u8; 64]), timestamp: -1, slot: 1 };
    let line = log_line(&event).unwrap();
    assert!(line.ends_with(" \"Wed, 31 Dec 1969 23:59:59.999 +0000\"\n"));
}

#[test]
fn no_line_for_a_time_that_has_no_date() {
    let event = MatchEvent { signature: Signature::new([0u8; 64]), timestamp: i64::MAX, slot: 1 };
    assert_eq!(log_line(&event), None);
    let event = MatchEvent { signature: Signature::new([0u8; 64]), timestamp: i64::MIN, slot: 1 };
    assert_eq!(log_line(&event), None);
}

#[test]
fn pattern_names_weekday_date_time_and_offset() {
    assert_eq!(TIMESTAMP_PATTERN, "%a, %d %b %Y %H:%M:%S%.3f %z");
}
