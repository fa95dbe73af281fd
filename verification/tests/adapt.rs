use docsis_monitor::adapt::{as_config, judge, minutes, secs, suggest, Suggestion};
use docsis_monitor::addr::Ipv4Addr;
use docsis_monitor::config::{PerRelay, RelayThreshold};
use docsis_monitor::relays::Relays;

fn one(requests: u64, span: u64, gap: u64) -> (Option<u64>, String) {
    judge(requests, span, gap, 3_600)
}

#[test]
fn a_busy_interface_gets_the_floor() {
    let (idle, why) = one(240_000, 3_600, 2);
    assert_eq!(idle, Some(300));
    assert!(why.contains("under the 5m0s floor"), "{why}");
}

#[test]
fn the_floor_says_the_arithmetic_not_that_the_interface_is_busy() {
    let (idle, why) = one(12, 180, 93);
    assert_eq!(idle, Some(300), "93 x 3 is under the floor");
    assert!(!why.contains("Busy"), "an interface silent for 1m33s: {why}");
    assert!(why.contains("1m33s"), "{why}");
    assert!(why.contains("still under"), "{why}");
}

#[test]
fn a_quiet_interface_gets_room_above_its_longest_silence() {
    let (idle, why) = one(4, 3_600, 1_200);
    assert_eq!(idle, Some(3_600));
    assert!(why.contains("4 requests"), "{why}");
    assert!(why.contains("20m0s"), "{why}");
}

#[test]
fn an_interface_that_said_nothing_gets_no_suggestion() {
    let (idle, why) = one(0, 0, 0);
    assert_eq!(idle, None);
    assert!(why.contains("cannot tell the difference"), "{why}");
}

#[test]
fn one_request_is_not_enough_to_measure_a_gap() {
    let (idle, why) = one(1, 0, 0);
    assert_eq!(idle, None);
    assert!(why.contains("at least two"), "{why}");
}

#[test]
fn a_gap_too_long_to_watch_is_capped_and_says_so() {
    let (idle, why) = one(3, 86_400, 40_000);
    assert_eq!(idle, Some(86_400));
    assert!(why.contains("too quiet to watch"), "{why}");
}

#[test]
fn the_block_can_be_pasted_into_the_configuration() {
    let all = vec![
        Suggestion {
            gi: Ipv4Addr::new(10, 100, 0, 1),
            requests: 100,
            span: 3_600,
            longest_gap: 4,
            idle_seconds: Some(300),
            because: String::new(),
        },
        Suggestion {
            gi: Ipv4Addr::new(10, 100, 0, 2),
            requests: 3,
            span: 3_600,
            longest_gap: 1_200,
            idle_seconds: Some(3_600),
            because: String::new(),
        },
        // Nothing to say about this one; it must not appear.
        Suggestion {
            gi: Ipv4Addr::new(10, 100, 0, 3),
            requests: 0,
            span: 0,
            longest_gap: 0,
            idle_seconds: None,
            because: String::new(),
        },
    ];
    let block = as_config(&all);
    assert!(
        block.contains(r#""10.100.0.1": { "idle_seconds": 300 },"#),
        "{block}"
    );
    assert!(
        block.contains(r#""10.100.0.2": { "idle_seconds": 3600 }"#),
        "{block}"
    );
    assert!(!block.contains("10.100.0.3"), "{block}");
    // And it has to be JSON, or it cannot be pasted anywhere.
    let whole = format!("{{\n{}\n}}", block.trim_end_matches('\n'));
    serde_json::from_str::<serde_json::Value>(&whole)
        .unwrap_or_else(|e| panic!("the block is not valid JSON: {e}\n{whole}"));
}

/// The thresholds that a pasted block sets.
fn pasted(block: &str) -> PerRelay {
    let whole: serde_json::Value =
        serde_json::from_str(&format!("{{{block}}}")).expect("a JSON object");
    let entries: Vec<(String, RelayThreshold)> = whole["per_relay"]
        .as_object()
        .expect("a section")
        .iter()
        .map(|(gi, t)| {
            let idle_seconds = t["idle_seconds"].as_u64().expect("a number");
            (gi.clone(), RelayThreshold { idle_seconds })
        })
        .collect();
    PerRelay::from_entries(&entries)
}

#[test]
fn a_pasted_block_does_what_was_suggested() {
    let mut r = Relays::default();
    for (n, gap) in [(9u8, 150u64), (10, 0), (100, 5_000), (255, 1)] {
        let gi = Some(Ipv4Addr::new(10, 100, 0, n));
        r.request(gi, None, 1_000, 1_000_000);
        if gap > 0 {
            r.request(gi, None, 1_000 + gap, (1_000 + gap) * 1_000);
        }
    }
    let all = suggest(&r, 36_000);
    let limits = pasted(&as_config(&all));
    for s in &all {
        assert_eq!(limits.idle_seconds(s.gi, 77), s.idle_seconds.unwrap_or(77), "{:?}", s.gi);
    }
    assert_eq!(limits.named(), vec!["10.100.0.100", "10.100.0.255", "10.100.0.9"]);
    assert_eq!(limits.idle_seconds(Ipv4Addr::new(10, 100, 0, 100), 77), 15_000);
}

#[test]
fn nothing_measured_says_so_rather_than_printing_an_empty_block() {
    let block = as_config(&[]);
    assert!(block.contains("nothing to suggest"), "{block}");
}

#[test]
fn a_longer_silence_never_shortens_the_suggestion() {
    let mut before = 0;
    for gap in [0, 1, 99, 100, 101, 5_000, 28_799, 28_800, 28_801, u64::MAX] {
        let idle = one(50, 3_600, gap).0.expect("a suggestion");
        assert!(idle >= before, "{gap}s of silence gave {idle}");
        assert!((300..=86_400).contains(&idle));
        before = idle;
    }
    assert_eq!(one(50, 3_600, 101).0, Some(303), "three times the gap");
    assert_eq!(one(50, 3_600, 28_800).0, Some(86_400));
}

#[test]
fn durations_are_written_in_minutes_and_seconds() {
    assert_eq!(minutes(0), "0s");
    assert_eq!(minutes(90), "90s");
    assert_eq!(minutes(91), "2m");
    assert_eq!(minutes(149), "2m");
    assert_eq!(minutes(150), "3m");
    assert_eq!(minutes(3_600), "60m");
    assert_eq!(secs(0), "0s");
    assert_eq!(secs(90), "90s");
    assert_eq!(secs(91), "1m31s");
    assert_eq!(secs(93), "1m33s");
}

#[test]
fn the_span_ends_with_the_last_packet_of_either_kind() {
    let gi = Some(Ipv4Addr::new(10, 100, 0, 1));
    let mut r = Relays::default();
    r.request(gi, Some(1), 1_000, 1_000_000);
    r.reply(gi, Some(1), 1_010, 1_010_000);
    assert_eq!(suggest(&r, 3_600)[0].span, 10, "a reply is a packet too");
    r.request(gi, Some(2), 1_300, 1_300_000);
    assert_eq!(suggest(&r, 3_600)[0].span, 300);
    r.reply(gi, Some(2), 1_200, 1_300_001);
    assert_eq!(suggest(&r, 3_600)[0].span, 300, "a clock that steps back shortens nothing");
    let mut only = Relays::default();
    only.reply(gi, None, 1_000, 1_000_000);
    assert_eq!(suggest(&only, 3_600)[0].span, 0, "one packet");
}

#[test]
fn every_interface_that_relayed_is_suggested_for() {
    let mut r = Relays::default();
    for at in [1_000u64, 1_200, 1_210] {
        r.request(Some(Ipv4Addr::new(10, 100, 0, 2)), None, at, at * 1_000);
    }
    r.request(Some(Ipv4Addr::new(10, 100, 0, 1)), None, 1_000, 1_000_000);
    r.request(None, None, 1_000, 1_000_000);
    let all = suggest(&r, 3_600);
    assert_eq!(all.len(), 2);
    assert_eq!(all[0].gi, Ipv4Addr::new(10, 100, 0, 1));
    assert_eq!(all[0].idle_seconds, None, "one request has no gap");
    assert_eq!(all[1].gi, Ipv4Addr::new(10, 100, 0, 2));
    assert_eq!(all[1].requests, 3);
    assert_eq!(all[1].span, 210);
    assert_eq!(all[1].longest_gap, 200);
    assert_eq!(all[1].idle_seconds, Some(600));
    assert_eq!(all[1].because, judge(3, 210, 200, 3_600).1);
}
