use pingcore::table::{ProbeState, ProbeTable, TableError};

#[test]
fn sequence_numbers_increase_and_wrap() {
    let mut t = ProbeTable::new(1);
    assert!(t.add_host(5));
    assert_eq!(t.next_sequence(5), Some(0));
    assert_eq!(t.next_sequence(5), Some(1));
    for expected in 2u32..65536 {
        assert_eq!(t.next_sequence(5), Some(expected as u16));
    }
    assert_eq!(t.next_sequence(5), Some(0));
    assert_eq!(t.next_sequence(6), None);
}

#[test]
fn sequence_counters_are_per_target() {
    let mut t = ProbeTable::new(1);
    assert!(t.add_host(1));
    assert!(t.add_host(2));
    assert!(!t.add_host(1));
    assert_eq!(t.next_sequence(1), Some(0));
    assert_eq!(t.next_sequence(1), Some(1));
    assert_eq!(t.next_sequence(2), Some(0));
}

#[test]
fn record_sent_refuses_unknown_target_and_duplicates() {
    let mut t = ProbeTable::new(1);
    assert_eq!(t.record_sent(9, 0, 10), Err(TableError::UnknownTarget));
    assert!(t.add_host(9));
    assert_eq!(t.record_sent(9, 0, 10), Ok(()));
    assert_eq!(t.record_sent(9, 0, 20), Err(TableError::SequenceInUse));
    assert_eq!(t.pending_count(), 1);
    assert!(t.has_pending(9, 0));
}

#[test]
fn reply_yields_exact_round_trip_time() {
    let mut t = ProbeTable::new(0x55);
    assert!(t.add_host(3));
    t.record_sent(3, 7, 1_000).unwrap();
    let p = t.record_reply(3, 0x55, 7, 1_250).unwrap();
    assert_eq!(p.target, 3);
    assert_eq!(p.sequence, 7);
    assert_eq!(p.sent_at, 1_000);
    assert_eq!(p.state, ProbeState::Replied { rtt: 250 });
    assert_eq!(t.pending_count(), 0);
    assert_eq!(t.record_reply(3, 0x55, 7, 1_300), None);
}

#[test]
fn reply_with_foreign_identifier_is_ignored() {
    let mut t = ProbeTable::new(0x55);
    assert!(t.add_host(3));
    t.record_sent(3, 7, 1_000).unwrap();
    assert_eq!(t.record_reply(3, 0x56, 7, 1_100), None);
    assert_eq!(t.record_reply(4, 0x55, 7, 1_100), None);
    assert_eq!(t.pending_count(), 1);
}

#[test]
fn clock_stepping_back_gives_zero_rtt() {
    let mut t = ProbeTable::new(1);
    assert!(t.add_host(3));
    t.record_sent(3, 0, 500).unwrap();
    assert_eq!(t.record_reply(3, 1, 0, 400).unwrap().state, ProbeState::Replied { rtt: 0 });
}

#[test]
fn timeout_is_reported_exactly_once() {
    let mut t = ProbeTable::new(1);
    assert!(t.add_host(1));
    assert!(t.add_host(2));
    t.record_sent(1, 0, 0).unwrap();
    t.record_sent(2, 0, 50).unwrap();
    assert!(t.sweep_timeouts(100, 100).is_empty());
    let out = t.sweep_timeouts(101, 100);
    assert_eq!(out.len(), 1);
    assert_eq!(out[0].target, 1);
    assert_eq!(out[0].state, ProbeState::TimedOut);
    assert!(t.sweep_timeouts(140, 100).is_empty());
    assert_eq!(t.record_reply(1, 1, 0, 141), None);
    let out = t.sweep_timeouts(151, 100);
    assert_eq!(out.len(), 1);
    assert_eq!(out[0].target, 2);
    assert_eq!(t.pending_count(), 0);
}

#[test]
fn removing_a_host_drops_only_its_probes() {
    let mut t = ProbeTable::new(1);
    assert!(t.add_host(1));
    assert!(t.add_host(2));
    t.record_sent(1, 0, 0).unwrap();
    t.record_sent(2, 0, 0).unwrap();
    t.record_sent(1, 1, 0).unwrap();
    assert!(t.remove_host(1));
    assert!(!t.remove_host(1));
    assert_eq!(t.pending_count(), 1);
    assert!(t.has_pending(2, 0));
    assert_eq!(t.next_sequence(1), None);
}
