use docsis_monitor::addr::Ipv4Addr;
use docsis_monitor::relays::{Relay, Relays, MAX_PENDING};

/// A gi-address, as the packet reader hands one over.
fn gi(n: u8) -> Option<Ipv4Addr> {
    Some(Ipv4Addr::new(10, 100, 0, n))
}

#[test]
fn each_relay_is_counted_on_its_own() {
    let mut r = Relays::default();
    r.request(gi(1), Some(1), 1000, 1_000_000);
    r.request(gi(1), Some(2), 1001, 1_001_000);
    r.request(gi(2), Some(3), 1002, 1_002_000);

    let seen = r.each();
    assert_eq!(seen.len(), 2);
    assert_eq!(seen[0].1.requests, 2, "10.100.0.1");
    assert_eq!(seen[1].1.requests, 1, "10.100.0.2");
}

#[test]
fn an_answer_is_timed_against_the_request_it_answers() {
    let mut r = Relays::default();
    r.request(gi(1), Some(0xAAAA), 1000, 1_000_000);
    r.reply(gi(1), Some(0xAAAA), 1000, 1_000_004);
    r.request(gi(1), Some(0xBBBB), 1001, 1_001_000);
    r.reply(gi(1), Some(0xBBBB), 1001, 1_001_120);

    let (_, relay) = r.each()[0];
    assert_eq!(relay.answered, 2);
    assert_eq!(relay.answer_ms_mean(), Some(62), "(4 + 120) / 2");
    assert_eq!(relay.answer_ms_worst, 120);
    assert_eq!(r.waiting(), 0, "both were answered");
}

#[test]
fn a_reply_to_nothing_is_counted_but_not_timed() {
    let mut r = Relays::default();
    r.reply(gi(1), Some(0xCCCC), 1000, 1_000_000);
    let (_, relay) = r.each()[0];
    assert_eq!(relay.replies, 1);
    assert_eq!(relay.answered, 0);
    assert_eq!(relay.answer_ms_mean(), None);
}

#[test]
fn a_reply_is_credited_to_the_relay_that_asked() {
    let mut r = Relays::default();
    r.request(gi(7), Some(0xDDDD), 1000, 1_000_000);
    assert_eq!(r.reply(None, Some(0xDDDD), 1000, 1_000_010), gi(7));
    let seen = r.each();
    assert_eq!(seen.len(), 1, "no second row for the answer");
    assert_eq!(seen[0].1.replies, 1);
    assert_eq!(seen[0].1.answered, 1);
}

#[test]
fn the_longest_gap_between_requests_is_remembered() {
    let mut r = Relays::default();
    for at in [1000u64, 1005, 1010, 1400, 1405] {
        r.request(gi(1), None, at, at * 1000);
    }
    assert_eq!(r.each()[0].1.longest_gap, 390);
    assert_eq!(r.each()[0].1.idle_for(1500), Some(95));
}

#[test]
fn a_retry_replaces_the_attempt_it_repeats() {
    let mut r = Relays::default();
    r.request(gi(1), Some(0xEEEE), 1000, 1_000_000);
    r.request(gi(1), Some(0xEEEE), 1004, 1_004_000);
    r.reply(gi(1), Some(0xEEEE), 1004, 1_004_030);
    let (_, relay) = r.each()[0];
    assert_eq!(relay.answer_ms_worst, 30, "not 4030");
}

#[test]
fn nothing_answered_does_not_grow_without_limit() {
    let mut r = Relays::default();
    let began = std::time::Instant::now();
    for i in 0..(u32::try_from(MAX_PENDING).unwrap_or(u32::MAX) + 5_000) {
        r.request(gi(1), Some(i), 1000, 1_000_000);
    }
    assert!(r.waiting() <= MAX_PENDING, "kept {}", r.waiting());

    // And it must not take a measurable amount of time to do it.
    let took = began.elapsed();
    assert!(
        took < std::time::Duration::from_secs(2),
        "55,000 unanswered requests took {took:?}"
    );
}

#[test]
fn a_very_late_reply_is_not_timed_against_a_forgotten_request() {
    let mut r = Relays::default();
    r.request(gi(1), Some(0xF00D), 1000, 1_000_000);
    // Another request moves the clock on, which is what expires the first.
    r.request(gi(1), Some(0xBEEF), 1100, 1_100_000);
    r.reply(gi(1), Some(0xF00D), 1100, 1_100_000);
    let (_, relay) = r.each()[0];
    assert_eq!(relay.replies, 1);
    assert_eq!(relay.answered, 0, "the request had been written off");
}

#[test]
fn tftp_is_kept_apart_from_the_relays() {
    let mut r = Relays::default();
    r.request(gi(1), None, 1000, 1_000_000);
    r.tftp_request(1000);
    r.tftp_send(1000);
    assert_eq!(r.each().len(), 1);
    assert_eq!(r.each()[0].1.tftp_requests, 0);
    assert_eq!(r.unrelayed().tftp_requests, 1);
    assert_eq!(r.unrelayed().tftp_sends, 1);
}

#[test]
fn relays_are_listed_by_address() {
    let mut r = Relays::default();
    for n in [9u8, 2, 200, 3] {
        r.request(gi(n), None, 1000, 1_000_000);
    }
    let order: Vec<Ipv4Addr> = r.each().iter().map(|(g, _)| *g).collect();
    assert_eq!(
        order,
        [2u8, 3, 9, 200].map(|n| Ipv4Addr::new(10, 100, 0, n)).to_vec()
    );
}

#[test]
fn a_row_begins_with_its_first_packet() {
    let mut r = Relays::default();
    r.reply(gi(1), None, 900, 900_000);
    r.request(gi(1), None, 1000, 1_000_000);
    r.request(None, Some(5), 1001, 1_001_000);
    r.tftp_send(1002);
    let (_, relay) = r.each()[0];
    assert_eq!(relay.first_seen, 900);
    assert_eq!(relay.last_reply, Some(900));
    assert_eq!(relay.last_request, Some(1000));
    assert_eq!(relay.longest_gap, 0, "one request has no gap");
    assert_eq!(relay.total(), 2);
    assert_eq!(r.unrelayed().first_seen, 1001);
    assert_eq!(r.unrelayed().total(), 2);
    assert_eq!(r.waiting(), 1);
    assert_eq!(Relay::default().idle_for(10), None);
}

#[test]
fn the_table_is_swept_once_a_second() {
    let mut r = Relays::default();
    r.request(gi(1), Some(1), 100, 100_000);
    r.request(gi(1), Some(2), 100, 100_500);
    assert_eq!(r.waiting(), 2);
    // Half a minute after the first, and the sweep drops only that one.
    r.request(gi(1), Some(3), 130, 130_000);
    assert_eq!(r.waiting(), 2);
    // A reply to the second is still timed.
    r.reply(gi(1), Some(2), 130, 130_100);
    assert_eq!(r.each()[0].1.answer_ms_worst, 29_600);
}

#[test]
fn there_is_room_until_a_count_is_full() {
    let mut r = Relays::default();
    assert!(r.has_room_for_request(gi(1)));
    assert!(r.has_room_for_reply(gi(1), None, 0));
    assert!(r.has_room_for_reply(gi(1), Some(1), u64::MAX));
    r.request(gi(1), Some(1), 0, 0);
    assert!(r.has_room_for_request(gi(1)));
    assert!(r.has_room_for_reply(gi(1), Some(1), 29_999));
    assert!(r.has_room_for_reply(gi(1), Some(1), u64::MAX), "too late to be timed at all");
    r.reply(gi(1), Some(1), 0, u64::MAX);
    assert_eq!(r.each()[0].1.answer_ms_mean(), None);
}

#[test]
fn half_a_minute_is_as_long_as_a_request_waits() {
    // Nothing else arrives in between, so nothing has swept the table.
    let mut r = Relays::default();
    r.request(gi(1), Some(1), 1_000, 1_000_000);
    assert_eq!(r.reply(gi(1), Some(1), 1_040, 1_040_000), gi(1));
    let (_, relay) = r.each()[0];
    assert_eq!(relay.replies, 1, "it is counted");
    assert_eq!(relay.answered, 0, "and not timed: the request was written off");
    assert_eq!(relay.answer_ms_mean(), None);

    for (after, answered) in [(29_999u64, 1u64), (30_000, 0), (30_001, 0)] {
        let mut r = Relays::default();
        r.request(gi(1), Some(1), 1_000, 1_000_000);
        r.reply(gi(1), Some(1), 1_030, 1_000_000 + after);
        assert_eq!(r.each()[0].1.answered, answered, "after {after}ms");
    }

    // A late reply belongs to the interface that it names itself.
    let mut r = Relays::default();
    r.request(gi(1), Some(1), 1_000, 1_000_000);
    assert_eq!(r.reply(gi(2), Some(1), 1_040, 1_040_000), gi(2));
    assert_eq!(r.each()[0].1.replies, 0);
    assert_eq!(r.each()[1].1.replies, 1);
}

#[test]
fn an_answer_is_timed_whatever_else_arrives_in_between() {
    let mut r = Relays::default();
    r.request(None, Some(1), 1_000, 1_000_000);
    r.request(gi(1), Some(2), 1_001, 1_001_000);
    r.reply(gi(1), Some(3), 1_001, 1_001_500);
    r.tftp_request(1_002);
    r.reply(None, Some(1), 1_002, 1_002_250);
    assert_eq!(r.unrelayed().answer_ms_worst, 2_250, "a request that no relay forwarded");
    r.tftp_send(1_003);
    r.reply(None, Some(2), 1_003, 1_003_007);
    assert_eq!(r.each()[0].1.answer_ms_worst, 2_007);
    // The second reply to a request answers nothing that still waits.
    r.reply(gi(1), Some(2), 1_004, 1_004_000);
    assert_eq!(r.each()[0].1.answered, 1);
    assert_eq!(r.each()[0].1.replies, 3);
}
