use shredscan::buffer::FragmentBuffer;
use shredscan::completion::Completion;
use shredscan::fragment::{Fragment, FragmentKind};
use shredscan::slot_buffer::CollisionPolicy;

fn buffer_with(slot: u64, indices: &[u32]) -> FragmentBuffer {
    let mut buffer = FragmentBuffer::new(16, CollisionPolicy::KeepFirst);
    for index in indices {
        buffer.insert(Fragment::new(slot, *index, FragmentKind::Data, 0, vec![*index as u8]), 0);
    }
    buffer
}

fn indices_of(list: &Vec<Fragment>) -> Vec<u32> {
    list.iter().map(|f| f.index()).collect()
}

#[test]
fn window_with_a_gap_is_incomplete() {
    let buffer = buffer_with(1, &[0, 1, 2, 4]);
    match buffer.check(1, 4) {
        Some(Completion::Incomplete(missing)) => assert_eq!(missing, vec![3]),
        other => panic!("unexpected: {:?}", other),
    }
    let window = buffer.window(1, 4).unwrap();
    assert_eq!(window.min_index, 0);
    assert_eq!(window.max_index, 4);
    assert_eq!(window.missing, vec![3]);
}

#[test]
fn window_without_a_gap_is_complete_in_order() {
    let buffer = buffer_with(1, &[2, 0, 3, 1]);
    match buffer.check(1, 3) {
        Some(Completion::Complete(list)) => {
            assert_eq!(indices_of(&list), vec![0, 1, 2, 3]);
            for f in list.iter() {
                assert_eq!(f.payload(), &vec![f.index() as u8]);
                assert_eq!(f.slot(), 1);
            }
        },
        other => panic!("unexpected: {:?}", other),
    }
    let window = buffer.window(1, 3).unwrap();
    assert_eq!((window.min_index, window.max_index), (0, 3));
    assert!(window.missing.is_empty());
}

#[test]
fn indices_above_the_terminal_index_are_not_counted() {
    let buffer = buffer_with(1, &[0, 1, 2, 5, 6]);
    match buffer.check(1, 2) {
        Some(Completion::Complete(list)) => assert_eq!(indices_of(&list), vec![0, 1, 2]),
        other => panic!("unexpected: {:?}", other),
    }
    match buffer.check(1, 6) {
        Some(Completion::Incomplete(missing)) => assert_eq!(missing, vec![3, 4]),
        other => panic!("unexpected: {:?}", other),
    }
}

#[test]
fn window_starts_at_the_smallest_index_held() {
    let buffer = buffer_with(1, &[5, 6, 8]);
    let window = buffer.window(1, 8).unwrap();
    assert_eq!(window.min_index, 5);
    assert_eq!(window.missing, vec![7]);
    match buffer.check(1, 6) {
        Some(Completion::Complete(list)) => assert_eq!(indices_of(&list), vec![5, 6]),
        other => panic!("unexpected: {:?}", other),
    }
}

#[test]
fn absent_terminal_index_is_itself_missing() {
    let buffer = buffer_with(1, &[0, 1]);
    match buffer.check(1, 3) {
        Some(Completion::Incomplete(missing)) => assert_eq!(missing, vec![2, 3]),
        other => panic!("unexpected: {:?}", other),
    }
}

#[test]
fn no_window_without_an_index_that_small() {
    let buffer = buffer_with(1, &[4, 5]);
    assert!(buffer.check(1, 3).is_none());
    assert!(buffer.window(1, 3).is_none());
    assert!(buffer.check(2, 9).is_none());
    assert!(buffer.window(2, 9).is_none());
}

#[test]
fn single_fragment_window() {
    let buffer = buffer_with(1, &[0]);
    match buffer.check(1, 0) {
        Some(Completion::Complete(list)) => assert_eq!(indices_of(&list), vec![0]),
        other => panic!("unexpected: {:?}", other),
    }
}

#[test]
fn window_at_the_top_of_the_index_range() {
    let buffer = buffer_with(1, &[u32::MAX - 2, u32::MAX]);
    match buffer.check(1, u32::MAX) {
        Some(Completion::Incomplete(missing)) => assert_eq!(missing, vec![u32::MAX - 1]),
        other => panic!("unexpected: {:?}", other),
    }
}
