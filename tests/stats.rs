use pingcore::codec::{encode_echo, ECHO_REPLY};
use pingcore::session::{Address, Session};
use pingcore::stats::Stats;

#[test]
fn stats_track_min_max_last_and_average() {
    let mut s = Stats::new();
    assert_eq!(s.average_rtt(), None);
    s.record_reply(30);
    s.record_reply(10);
    s.record_reply(50);
    assert_eq!(s.replies, 3);
    assert_eq!(s.min_rtt, Some(10));
    assert_eq!(s.max_rtt, Some(50));
    assert_eq!(s.last_rtt, Some(50));
    assert_eq!(s.rtt_total, 90);
    assert_eq!(s.average_rtt(), Some(30));
    s.record_losses(2);
    assert_eq!(s.losses, 2);
}

#[test]
fn stats_saturate_instead_of_overflowing() {
    let mut s = Stats::new();
    s.record_reply(u64::MAX);
    s.record_reply(5);
    assert_eq!(s.rtt_total, u64::MAX);
    s.record_losses(u64::MAX);
    s.record_losses(1);
    assert_eq!(s.losses, u64::MAX);
}

#[test]
fn session_counts_each_timeout_once() {
    let a = Address::V4(0x7F00_0001);
    let b = Address::V6(1);
    let mut s = Session::new(9, 100);
    let ha = s.add_target(a, "a".to_string()).unwrap();
    let hb = s.add_target(b, "b".to_string()).unwrap();
    let out = s.begin_round([0; 8]);
    s.on_sent(ha, out[0].sequence, 0).unwrap();
    s.on_sent(hb, out[1].sequence, 0).unwrap();
    let reply = encode_echo(ECHO_REPLY, 9, out[1].sequence, &out[1].bytes[8..]);
    s.on_packet(b, &reply, 25);
    s.on_tick(200);
    s.on_tick(400);
    let sa = s.stats(ha).unwrap();
    let sb = s.stats(hb).unwrap();
    assert_eq!(sa.losses, 1);
    assert_eq!(sa.replies, 0);
    assert_eq!(sb.losses, 0);
    assert_eq!(sb.replies, 1);
    assert_eq!(sb.last_rtt, Some(25));
    assert_eq!(s.stats(99), None);
}
