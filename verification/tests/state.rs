use shredscan::state::{SlotEvent, SlotState};

const EVENTS: [SlotEvent; 5] = [
    SlotEvent::FragmentStored,
    SlotEvent::WindowComplete,
    SlotEvent::DecodeStarted,
    SlotEvent::DecodeSucceeded,
    SlotEvent::DecodeFailed,
];

#[test]
fn slot_walks_from_no_fragments_to_decoded() {
    let mut state = SlotState::NoFragments;
    state = state.step(SlotEvent::FragmentStored);
    assert_eq!(state, SlotState::Collecting);
    assert!(state.is_collecting());
    state = state.step(SlotEvent::FragmentStored);
    assert_eq!(state, SlotState::Collecting);
    state = state.step(SlotEvent::WindowComplete);
    assert_eq!(state, SlotState::Ready);
    state = state.step(SlotEvent::DecodeStarted);
    assert_eq!(state, SlotState::Decoding);
    assert!(!state.is_final());
    state = state.step(SlotEvent::DecodeSucceeded);
    assert_eq!(state, SlotState::Decoded);
    assert!(state.is_final());
}

#[test]
fn decoding_can_fail() {
    assert_eq!(SlotState::Decoding.step(SlotEvent::DecodeFailed), SlotState::Failed);
    assert!(SlotState::Failed.is_final());
}

#[test]
fn final_states_take_no_event() {
    for event in EVENTS {
        assert_eq!(SlotState::Decoded.step(event), SlotState::Decoded);
        assert_eq!(SlotState::Failed.step(event), SlotState::Failed);
    }
}

#[test]
fn events_out_of_place_change_nothing() {
    assert_eq!(SlotState::NoFragments.step(SlotEvent::WindowComplete), SlotState::NoFragments);
    assert_eq!(SlotState::NoFragments.step(SlotEvent::DecodeStarted), SlotState::NoFragments);
    assert_eq!(SlotState::Collecting.step(SlotEvent::DecodeStarted), SlotState::Collecting);
    assert_eq!(SlotState::Collecting.step(SlotEvent::DecodeSucceeded), SlotState::Collecting);
    assert_eq!(SlotState::Ready.step(SlotEvent::WindowComplete), SlotState::Ready);
    assert_eq!(SlotState::Ready.step(SlotEvent::DecodeFailed), SlotState::Ready);
    assert_eq!(SlotState::Decoding.step(SlotEvent::DecodeStarted), SlotState::Decoding);
    assert_eq!(SlotState::Decoding.step(SlotEvent::WindowComplete), SlotState::Decoding);
}

#[test]
fn decoding_is_entered_from_ready_only() {
    let states = [
        SlotState::NoFragments,
        SlotState::Collecting,
        SlotState::Ready,
        SlotState::Decoding,
        SlotState::Decoded,
        SlotState::Failed,
    ];
    for state in states {
        for event in EVENTS {
            let enters = state != SlotState::Decoding && state.step(event) == SlotState::Decoding;
            assert_eq!(enters, state == SlotState::Ready && event == SlotEvent::DecodeStarted);
        }
    }
}
