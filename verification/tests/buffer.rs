use shredscan::buffer::FragmentBuffer;
use shredscan::fragment::{Fragment, FragmentKind, TERMINAL_FLAG};
use shredscan::slot_buffer::{ArrivalStats, CollisionPolicy, InsertOutcome, SlotBuffer};
use shredscan::state::{SlotEvent, SlotState};

fn data(slot: u64, index: u32, payload: Vec<u8>) -> Fragment {
    Fragment::new(slot, index, FragmentKind::Data, 0, payload)
}

#[test]
fn fragment_keeps_what_it_was_made_of() {
    let f = Fragment::new(9, 4, FragmentKind::Coding, TERMINAL_FLAG | 3, vec![1, 2, 3]);
    assert_eq!(f.slot(), 9);
    assert_eq!(f.index(), 4);
    assert_eq!(f.kind(), FragmentKind::Coding);
    assert_eq!(f.flags(), 0x43);
    assert_eq!(f.payload(), &vec![1, 2, 3]);
    assert!(f.is_terminal());
    assert!(!f.is_data());
    let g = f.clone();
    assert!(g.same_as(&f));
    assert!(!data(9, 4, vec![1, 2, 3]).same_as(&f));
}

#[test]
fn terminal_flag_is_bit_six() {
    assert!(!data(1, 0, vec![]).is_terminal());
    assert!(Fragment::new(1, 0, FragmentKind::Data, 0x40, vec![]).is_terminal());
    assert!(Fragment::new(1, 0, FragmentKind::Data, 0xc0, vec![]).is_terminal());
    assert!(!Fragment::new(1, 0, FragmentKind::Data, 0xbf, vec![]).is_terminal());
}

#[test]
fn insert_then_get_returns_the_fragment_unchanged() {
    let mut buffer = FragmentBuffer::new(8, CollisionPolicy::KeepFirst);
    assert_eq!(buffer.insert(data(100, 7, vec![10, 20, 30]), 5), InsertOutcome::Stored);
    let found = buffer.get(100, 7).unwrap();
    assert!(found.same_as(&data(100, 7, vec![10, 20, 30])));
}

#[test]
fn distinct_insertions_are_all_found() {
    let mut buffer = FragmentBuffer::new(4, CollisionPolicy::KeepFirst);
    let keys: Vec<(u64, u32)> =
        vec![(100, 3), (101, 0), (100, 0), (102, 9), (101, 5), (100, 1), (102, 2)];
    let mut now: i64 = 0;
    for (slot, index) in keys.iter() {
        now += 1;
        let payload = vec![*slot as u8, *index as u8, 0xaa];
        assert_eq!(buffer.insert(data(*slot, *index, payload), now), InsertOutcome::Stored);
    }
    for (slot, index) in keys.iter() {
        let found = buffer.get(*slot, *index).unwrap();
        assert!(found.same_as(&data(*slot, *index, vec![*slot as u8, *index as u8, 0xaa])));
    }
    assert_eq!(buffer.resident(), 3);
}

#[test]
fn get_reports_not_found() {
    let mut buffer = FragmentBuffer::new(4, CollisionPolicy::KeepFirst);
    assert!(buffer.get(1, 0).is_none());
    buffer.insert(data(1, 0, vec![]), 0);
    assert!(buffer.get(1, 1).is_none());
    assert!(buffer.get(2, 0).is_none());
    assert!(buffer.get(1, 0).is_some());
}

#[test]
fn reinsertion_of_the_same_fragment_changes_nothing_but_the_count() {
    let mut buffer = FragmentBuffer::new(4, CollisionPolicy::Overwrite);
    assert_eq!(buffer.insert(data(5, 2, vec![1, 1]), 10), InsertOutcome::Stored);
    assert_eq!(buffer.insert(data(5, 2, vec![1, 1]), 11), InsertOutcome::Duplicate);
    assert_eq!(buffer.indices(5), vec![2]);
    assert_eq!(buffer.get(5, 2).unwrap().payload(), &vec![1, 1]);
    assert_eq!(buffer.stats(5).unwrap().count, 2);
}

#[test]
fn keep_first_leaves_the_first_payload() {
    let mut buffer = FragmentBuffer::new(4, CollisionPolicy::KeepFirst);
    buffer.insert(data(5, 2, vec![1]), 10);
    assert_eq!(buffer.insert(data(5, 2, vec![2]), 11), InsertOutcome::KeptFirst);
    assert_eq!(buffer.get(5, 2).unwrap().payload(), &vec![1]);
    assert_eq!(buffer.policy(), CollisionPolicy::KeepFirst);
}

#[test]
fn overwrite_takes_the_last_payload() {
    let mut buffer = FragmentBuffer::new(4, CollisionPolicy::Overwrite);
    buffer.insert(data(5, 2, vec![1]), 10);
    assert_eq!(buffer.insert(data(5, 2, vec![2]), 11), InsertOutcome::Overwrote);
    assert_eq!(buffer.get(5, 2).unwrap().payload(), &vec![2]);
    assert_eq!(buffer.indices(5), vec![2]);
}

#[test]
fn indices_come_ascending_and_once() {
    let mut buffer = FragmentBuffer::new(4, CollisionPolicy::KeepFirst);
    for index in [9u32, 2, 7, 2, 0, 9, 4] {
        buffer.insert(data(3, index, vec![index as u8]), 0);
    }
    assert_eq!(buffer.indices(3), vec![0, 2, 4, 7, 9]);
    assert_eq!(buffer.indices(4), Vec::<u32>::new());
}

#[test]
fn stats_count_arrivals_and_span_their_times() {
    let mut buffer = FragmentBuffer::new(4, CollisionPolicy::KeepFirst);
    assert_eq!(buffer.stats(8), None);
    buffer.insert(data(8, 0, vec![]), 50);
    assert_eq!(buffer.stats(8), Some(ArrivalStats { count: 1, first_seen: 50, last_seen: 50 }));
    buffer.insert(data(8, 1, vec![]), 70);
    buffer.insert(data(8, 2, vec![]), 40);
    buffer.insert(data(8, 2, vec![]), 60);
    assert_eq!(buffer.stats(8), Some(ArrivalStats { count: 4, first_seen: 40, last_seen: 70 }));
}

#[test]
fn newest_slot_only_advances() {
    let mut buffer = FragmentBuffer::new(10, CollisionPolicy::KeepFirst);
    assert_eq!(buffer.newest(), None);
    buffer.insert(data(20, 0, vec![]), 0);
    assert_eq!(buffer.newest(), Some(20));
    buffer.insert(data(15, 0, vec![]), 0);
    assert_eq!(buffer.newest(), Some(20));
    buffer.insert(data(21, 0, vec![]), 0);
    assert_eq!(buffer.newest(), Some(21));
    assert_eq!(buffer.retention(), 10);
}

#[test]
fn fragment_of_a_slot_outside_the_window_is_stale() {
    let mut buffer = FragmentBuffer::new(2, CollisionPolicy::KeepFirst);
    buffer.insert(data(100, 0, vec![]), 0);
    assert_eq!(buffer.insert(data(99, 0, vec![]), 0), InsertOutcome::Stored);
    assert_eq!(buffer.insert(data(98, 0, vec![]), 0), InsertOutcome::Stale);
    assert!(buffer.get(98, 0).is_none());
    assert_eq!(buffer.resident(), 2);
}

#[test]
fn advancing_the_newest_slot_discards_old_buffers() {
    let mut buffer = FragmentBuffer::new(2, CollisionPolicy::KeepFirst);
    buffer.insert(data(100, 0, vec![]), 0);
    buffer.insert(data(101, 0, vec![]), 0);
    buffer.insert(data(105, 0, vec![]), 0);
    assert!(buffer.get(100, 0).is_none());
    assert!(buffer.get(101, 0).is_none());
    assert!(buffer.get(105, 0).is_some());
    assert_eq!(buffer.resident(), 1);
    assert_eq!(buffer.state(100), SlotState::NoFragments);
}

#[test]
fn window_of_two_never_holds_more_than_two_buffers() {
    let mut buffer = FragmentBuffer::new(2, CollisionPolicy::KeepFirst);
    for slot in [100u64, 101, 102, 103] {
        for index in 0u32..4 {
            buffer.insert(data(slot, index, vec![index as u8]), slot as i64);
            assert!(buffer.resident() <= 2);
        }
    }
    assert_eq!(buffer.resident(), 2);
    assert!(buffer.get(101, 0).is_none());
    assert!(buffer.get(102, 3).is_some());
    assert!(buffer.get(103, 3).is_some());
}

#[test]
fn window_of_zero_holds_nothing() {
    let mut buffer = FragmentBuffer::new(0, CollisionPolicy::KeepFirst);
    assert_eq!(buffer.insert(data(1, 0, vec![]), 0), InsertOutcome::Stale);
    assert_eq!(buffer.resident(), 0);
    assert_eq!(buffer.newest(), Some(1));
}

#[test]
fn widest_window_keeps_every_slot() {
    let mut buffer = FragmentBuffer::new(u64::MAX, CollisionPolicy::KeepFirst);
    buffer.insert(data(1, 0, vec![]), 0);
    buffer.insert(data(u64::MAX, 0, vec![]), 0);
    assert_eq!(buffer.insert(data(1, 1, vec![]), 0), InsertOutcome::Stored);
    assert_eq!(buffer.insert(data(0, 0, vec![]), 0), InsertOutcome::Stale);
    assert_eq!(buffer.resident(), 2);
}

#[test]
fn buffer_applies_events_to_resident_slots_only() {
    let mut buffer = FragmentBuffer::new(4, CollisionPolicy::KeepFirst);
    buffer.insert(data(1, 0, vec![]), 0);
    assert_eq!(buffer.state(1), SlotState::Collecting);
    buffer.apply(1, SlotEvent::WindowComplete);
    assert_eq!(buffer.state(1), SlotState::Ready);
    buffer.apply(2, SlotEvent::WindowComplete);
    assert_eq!(buffer.state(2), SlotState::NoFragments);
    assert_eq!(buffer.resident(), 1);
}

#[test]
fn slot_buffer_starts_with_its_first_fragment() {
    let mut slot = SlotBuffer::first(data(4, 6, vec![1]), 30);
    assert_eq!(slot.slot(), 4);
    assert_eq!(slot.len(), 1);
    assert_eq!(slot.state(), SlotState::Collecting);
    assert_eq!(slot.stats(), ArrivalStats { count: 1, first_seen: 30, last_seen: 30 });
    assert!(slot.contains(6));
    assert!(!slot.contains(5));
    assert_eq!(
        slot.insert(data(4, 5, vec![2]), 31, CollisionPolicy::KeepFirst),
        Some(InsertOutcome::Stored)
    );
    assert_eq!(slot.insert(data(3, 5, vec![9]), 32, CollisionPolicy::Overwrite), None);
    assert_eq!(slot.stats().count, 2);
    assert_eq!(slot.indices(), vec![5, 6]);
    assert_eq!(slot.get(5).unwrap().payload(), &vec![2]);
    assert!(slot.get(7).is_none());
    slot.apply(SlotEvent::WindowComplete);
    assert_eq!(slot.state(), SlotState::Ready);
}
