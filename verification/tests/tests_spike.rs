use pds_snn::codec::{decode_spikes, decode_spikes_fixed, encode_spikes, rows_of};
use pds_snn::spike::{check_binary, check_silent, retain_heard};
use pds_snn::{InputContractError, SpikeEvent};

fn event(ts: u64, spikes: Vec<u8>) -> SpikeEvent {
    SpikeEvent::new(ts, spikes).unwrap()
}

fn contents(events: &Vec<SpikeEvent>) -> Vec<(u64, Vec<u8>)> {
    events.iter().map(|e| (e.ts(), e.spikes().clone())).collect()
}

#[test]
fn spike_event_keeps_instant_and_spikes() {
    let e = SpikeEvent::new(7, vec![0, 1, 1, 0]).unwrap();
    assert_eq!(e.ts(), 7);
    assert_eq!(e.spikes(), &vec![0u8, 1, 1, 0]);
}

#[test]
fn spike_event_may_be_empty() {
    let e = SpikeEvent::new(u64::MAX, vec![]).unwrap();
    assert_eq!(e.ts(), u64::MAX);
    assert!(e.spikes().is_empty());
}

#[test]
fn spike_event_rejects_other_values() {
    assert_eq!(SpikeEvent::new(0, vec![0, 2]).err(), Some(InputContractError::NonBinarySpike));
    assert_eq!(SpikeEvent::new(3, vec![255]).err(), Some(InputContractError::NonBinarySpike));
    assert!(SpikeEvent::new(3, vec![1]).is_ok());
}

#[test]
fn binary_and_silent_checks() {
    assert!(check_binary(&vec![]));
    assert!(check_binary(&vec![0, 1, 1]));
    assert!(!check_binary(&vec![0, 1, 2]));
    assert!(check_silent(&vec![]));
    assert!(check_silent(&vec![0, 0]));
    assert!(!check_silent(&vec![0, 1]));
}

#[test]
fn encode_gives_one_event_per_instant() {
    let events = encode_spikes(&vec![vec![1, 0, 1], vec![0, 0, 1]], 3).unwrap();
    assert_eq!(contents(&events), vec![(0, vec![1, 0]), (1, vec![0, 0]), (2, vec![1, 1])]);
}

#[test]
fn encode_of_no_rows_gives_empty_events() {
    let events = encode_spikes(&vec![], 2).unwrap();
    assert_eq!(contents(&events), vec![(0, vec![]), (1, vec![])]);
}

#[test]
fn encode_of_no_instants_gives_no_event() {
    let events = encode_spikes(&vec![vec![], vec![]], 0).unwrap();
    assert!(events.is_empty());
}

#[test]
fn encode_rejects_other_values() {
    assert_eq!(
        encode_spikes(&vec![vec![1, 0], vec![0, 50]], 2).err(),
        Some(InputContractError::NonBinarySpike)
    );
}

#[test]
fn rows_of_copies_arrays() {
    let rows = rows_of(&[[1u8, 0, 1], [0, 0, 1]]);
    assert_eq!(rows, vec![vec![1, 0, 1], vec![0, 0, 1]]);
    let none: Vec<Vec<u8>> = rows_of::<3>(&[]);
    assert!(none.is_empty());
}

#[test]
fn retain_heard_drops_silent_events_on_request() {
    let make = || vec![event(0, vec![1, 0]), event(1, vec![0, 0]), event(2, vec![0, 1])];
    assert_eq!(
        contents(&retain_heard(make(), true)),
        vec![(0, vec![1, 0]), (2, vec![0, 1])]
    );
    assert_eq!(
        contents(&retain_heard(make(), false)),
        vec![(0, vec![1, 0]), (1, vec![0, 0]), (2, vec![0, 1])]
    );
}

#[test]
fn retain_heard_of_silence_is_empty() {
    let events = vec![event(0, vec![0]), event(1, vec![0])];
    assert!(retain_heard(events, true).is_empty());
    assert!(retain_heard(vec![], true).is_empty());
}

#[test]
fn decode_places_events_by_instant() {
    let events = vec![event(2, vec![1, 1, 0]), event(0, vec![0, 1, 1])];
    let matrix = decode_spikes(&events, 3, 4);
    assert_eq!(matrix, vec![vec![0, 0, 1, 0], vec![1, 0, 1, 0], vec![1, 0, 0, 0]]);
}

#[test]
fn decode_without_events_is_all_zero() {
    assert_eq!(decode_spikes(&vec![], 2, 3), vec![vec![0, 0, 0], vec![0, 0, 0]]);
    assert_eq!(decode_spikes(&vec![], 2, 0), vec![Vec::<u8>::new(), Vec::<u8>::new()]);
    assert_eq!(decode_spikes(&vec![], 0, 3), Vec::<Vec<u8>>::new());
}

#[test]
fn decode_lets_the_later_event_of_an_instant_win() {
    let events = vec![event(1, vec![1, 1]), event(1, vec![0, 1])];
    assert_eq!(decode_spikes(&events, 2, 2), vec![vec![0, 0], vec![0, 1]]);
}

#[test]
fn decode_leaves_rows_beyond_a_short_event() {
    let events = vec![event(0, vec![1, 1, 1]), event(0, vec![0])];
    assert_eq!(decode_spikes(&events, 3, 1), vec![vec![0], vec![1], vec![1]]);
}

#[test]
fn decode_into_arrays() {
    let events = vec![event(2, vec![1, 1, 0]), event(0, vec![0, 1, 1])];
    let matrix: [[u8; 4]; 3] = decode_spikes_fixed::<4, 3>(&events);
    assert_eq!(matrix, [[0, 0, 1, 0], [1, 0, 1, 0], [1, 0, 0, 0]]);
}

#[test]
fn decode_undoes_encode() {
    let matrix = vec![vec![1, 0, 0, 1], vec![0, 0, 1, 1], vec![0, 0, 0, 0]];
    let events = encode_spikes(&matrix, 4).unwrap();
    assert_eq!(decode_spikes(&events, 3, 4), matrix);
    let events = encode_spikes(&matrix, 4).unwrap();
    assert_eq!(decode_spikes(&retain_heard(events, true), 3, 4), matrix);
}
