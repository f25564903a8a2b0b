use pingcore::codec::{encode_echo, DecodeError, ECHO_REPLY};
use pingcore::session::{Address, RoundEntry, RoundResult, SendFailure, Session, Verdict};

fn reply_to(bytes: &[u8]) -> Vec<u8> {
    let id = u16::from_be_bytes([bytes[4], bytes[5]]);
    let seq = u16::from_be_bytes([bytes[6], bytes[7]]);
    encode_echo(ECHO_REPLY, id, seq, &bytes[8..])
}

const A: Address = Address::V4(0x0A00_0001);
const B: Address = Address::V4(0x0A00_0002);

#[test]
fn replies_are_independent_per_target() {
    let mut s = Session::new(0x4242, 1_000);
    let a = s.add_target(A, "a".to_string()).unwrap();
    let b = s.add_target(B, "b".to_string()).unwrap();
    let out = s.begin_round([0; 8]);
    assert_eq!(out.len(), 2);
    assert_eq!(out[0].target, a);
    assert_eq!(out[1].target, b);
    s.on_sent(a, out[0].sequence, 100).unwrap();
    let v = s.on_packet(A, &reply_to(&out[0].bytes), 130);
    assert_eq!(v, Verdict::Matched { target: a, rtt: 30 });
    let r = s.results();
    assert_eq!(r[0], RoundEntry { target: a, sequence: out[0].sequence, result: Some(RoundResult::Rtt(30)) });
    assert_eq!(r[1], RoundEntry { target: b, sequence: out[1].sequence, result: None });
    assert!(!s.round_finished());
    s.on_sent(b, out[1].sequence, 140).unwrap();
    assert_eq!(s.on_packet(B, &reply_to(&out[1].bytes), 190), Verdict::Matched { target: b, rtt: 50 });
    assert!(s.round_finished());
    assert_eq!(s.results(), s.results());
}

#[test]
fn reply_with_unknown_sequence_is_a_correlation_miss() {
    let mut s = Session::new(0x4242, 1_000);
    let a = s.add_target(A, "a".to_string()).unwrap();
    let out = s.begin_round([0; 8]);
    s.on_sent(a, out[0].sequence, 100).unwrap();
    let stale = encode_echo(ECHO_REPLY, 0x4242, out[0].sequence.wrapping_add(100), b"old");
    assert_eq!(s.on_packet(A, &stale, 120), Verdict::CorrelationMiss);
    assert_eq!(s.pending_count(), 1);
    assert_eq!(s.results()[0].result, None);
    let foreign = encode_echo(ECHO_REPLY, 0x4243, out[0].sequence, b"x");
    assert_eq!(s.on_packet(A, &foreign, 120), Verdict::CorrelationMiss);
    assert_eq!(s.on_packet(B, &reply_to(&out[0].bytes), 120), Verdict::CorrelationMiss);
    assert_eq!(s.pending_count(), 1);
}

#[test]
fn duplicate_reply_is_a_correlation_miss() {
    let mut s = Session::new(7, 1_000);
    let a = s.add_target(A, "a".to_string()).unwrap();
    let out = s.begin_round([0; 8]);
    s.on_sent(a, out[0].sequence, 0).unwrap();
    let reply = reply_to(&out[0].bytes);
    assert_eq!(s.on_packet(A, &reply, 10), Verdict::Matched { target: a, rtt: 10 });
    assert_eq!(s.on_packet(A, &reply, 20), Verdict::CorrelationMiss);
    assert_eq!(s.results()[0].result, Some(RoundResult::Rtt(10)));
}

#[test]
fn empty_session_round_is_empty() {
    let mut s = Session::new(1, 1_000);
    assert!(s.begin_round([0; 8]).is_empty());
    assert!(s.round_finished());
    assert!(s.close_round().is_empty());
}

#[test]
fn malformed_and_looped_back_packets_are_classified() {
    let mut s = Session::new(1, 1_000);
    let a = s.add_target(A, "a".to_string()).unwrap();
    let out = s.begin_round([0; 8]);
    s.on_sent(a, out[0].sequence, 0).unwrap();
    assert_eq!(s.on_packet(A, &[0, 0, 0], 1), Verdict::Undecodable(DecodeError::Truncated));
    let mut bad = reply_to(&out[0].bytes);
    bad[2] ^= 0xFF;
    assert_eq!(s.on_packet(A, &bad, 1), Verdict::Undecodable(DecodeError::ChecksumMismatch));
    assert_eq!(s.on_packet(A, &out[0].bytes, 1), Verdict::NotReply);
    assert_eq!(s.pending_count(), 1);
}

#[test]
fn timed_out_probe_is_a_loss_once() {
    let mut s = Session::new(1, 100);
    let a = s.add_target(A, "a".to_string()).unwrap();
    let b = s.add_target(B, "b".to_string()).unwrap();
    let out = s.begin_round([0; 8]);
    s.on_sent(a, out[0].sequence, 0).unwrap();
    s.on_sent(b, out[1].sequence, 0).unwrap();
    assert_eq!(s.on_packet(B, &reply_to(&out[1].bytes), 40), Verdict::Matched { target: b, rtt: 40 });
    let gone = s.on_tick(101);
    assert_eq!(gone.len(), 1);
    assert_eq!(gone[0].target, a);
    assert!(s.on_tick(300).is_empty());
    assert_eq!(s.on_packet(A, &reply_to(&out[0].bytes), 301), Verdict::CorrelationMiss);
    assert_eq!(
        s.close_round(),
        vec![
            RoundEntry { target: a, sequence: out[0].sequence, result: Some(RoundResult::Loss) },
            RoundEntry { target: b, sequence: out[1].sequence, result: Some(RoundResult::Rtt(40)) },
        ]
    );
}

#[test]
fn send_failure_is_isolated_to_its_target() {
    let mut s = Session::new(1, 100);
    let a = s.add_target(A, "a".to_string()).unwrap();
    let b = s.add_target(B, "b".to_string()).unwrap();
    let out = s.begin_round([0; 8]);
    s.on_send_failed(a, out[0].sequence, SendFailure::PermissionDenied);
    s.on_sent(b, out[1].sequence, 0).unwrap();
    let r = s.close_round();
    assert_eq!(r[0].result, Some(RoundResult::Error(SendFailure::PermissionDenied)));
    assert_eq!(r[1].result, Some(RoundResult::Loss));
}

#[test]
fn rounds_advance_sequence_numbers() {
    let mut s = Session::new(1, 100);
    s.add_target(A, "a".to_string()).unwrap();
    let first = s.begin_round([0; 8]);
    let second = s.begin_round([0; 8]);
    assert_eq!(first[0].sequence, 0);
    assert_eq!(second[0].sequence, 1);
    assert_eq!(second[0].address, A);
}

#[test]
fn removing_a_target_keeps_the_others() {
    let mut s = Session::new(1, 100);
    let a = s.add_target(A, "a".to_string()).unwrap();
    let b = s.add_target(B, "b".to_string()).unwrap();
    let out = s.begin_round([0; 8]);
    s.on_sent(a, out[0].sequence, 0).unwrap();
    s.on_sent(b, out[1].sequence, 0).unwrap();
    assert!(s.remove_target(a));
    assert!(!s.remove_target(a));
    assert_eq!(s.target_count(), 1);
    assert_eq!(s.pending_count(), 1);
    assert_eq!(s.on_packet(B, &reply_to(&out[1].bytes), 5), Verdict::Matched { target: b, rtt: 5 });
    let next = s.begin_round([0; 8]);
    assert_eq!(next.len(), 1);
    assert_eq!(next[0].target, b);
}

#[test]
fn earlier_round_probe_does_not_decide_later_round() {
    let mut s = Session::new(1, 100);
    let a = s.add_target(A, "a".to_string()).unwrap();
    let first = s.begin_round([0; 8]);
    s.on_sent(a, first[0].sequence, 0).unwrap();
    assert_eq!(s.close_round()[0].result, Some(RoundResult::Loss));
    let second = s.begin_round([0; 8]);
    s.on_sent(a, second[0].sequence, 90).unwrap();
    // The first probe times out during the second round.
    let gone = s.on_tick(150);
    assert_eq!(gone.len(), 1);
    assert_eq!(gone[0].sequence, first[0].sequence);
    assert_eq!(s.results()[0].result, None);
    assert_eq!(s.stats(a).unwrap().losses, 1);
    let second_probe_reply = reply_to(&second[0].bytes);
    assert_eq!(s.on_packet(A, &second_probe_reply, 120), Verdict::Matched { target: a, rtt: 30 });
    assert_eq!(s.results()[0].result, Some(RoundResult::Rtt(30)));
}

#[test]
fn late_reply_to_earlier_round_leaves_slot_open() {
    let mut s = Session::new(1, 1_000);
    let a = s.add_target(A, "a".to_string()).unwrap();
    let first = s.begin_round([0; 8]);
    s.on_sent(a, first[0].sequence, 0).unwrap();
    s.close_round();
    let second = s.begin_round([0; 8]);
    s.on_sent(a, second[0].sequence, 10).unwrap();
    assert_eq!(s.on_packet(A, &reply_to(&first[0].bytes), 20), Verdict::Matched { target: a, rtt: 20 });
    assert_eq!(s.results()[0].result, None);
    assert_eq!(s.stats(a).unwrap().replies, 1);
}

#[test]
fn duplicate_address_is_rejected() {
    let mut s = Session::new(1, 100);
    assert!(s.add_target(A, "a".to_string()).is_some());
    assert_eq!(s.add_target(A, "again".to_string()), None);
    assert_eq!(s.target_count(), 1);
}

#[test]
fn undecodable_packets_carry_their_error() {
    let mut s = Session::new(1, 100);
    s.add_target(A, "a".to_string()).unwrap();
    let mut unreachable = vec![3u8, 1, 0, 0, 0, 0, 0, 0];
    let c = pingcore::checksum::checksum(&unreachable);
    unreachable[2] = (c >> 8) as u8;
    unreachable[3] = (c & 0xFF) as u8;
    assert_eq!(
        s.on_packet(A, &unreachable, 0),
        Verdict::Undecodable(DecodeError::UnsupportedType { icmp_type: 3, code: 1 })
    );
}
