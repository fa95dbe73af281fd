use std::time::{SystemTime, UNIX_EPOCH};

use docsis_monitor::clock::{local, local_stamp, stamp_of};
use docsis_monitor::version::{build_epoch, build_stamp, format_with};

#[test]
fn the_epoch_comes_first_and_the_date_matches_it() {
    // 2026-09-05 19:52:38 UTC. The local rendering depends on the machine,
    // so what is pinned here is the shape and the epoch, not the hour.
    let s = docsis_monitor::version::format(1_788_637_958);
    let (epoch, rest) = s.split_once(' ').expect("epoch then date");
    assert_eq!(epoch, "1788637958");
    let (date, time) = rest.split_once(' ').expect("date then time");
    assert_eq!(date.split('-').count(), 3, "date was {date}");
    assert_eq!(time.split(':').count(), 3, "time was {time}");
    assert!(date.starts_with("2026-9-"), "date was {date}");
}

#[test]
fn the_minute_and_second_are_padded_but_the_date_and_hour_are_not() {
    // Asserted over a year of samples rather than one chosen moment: which
    // calendar day an epoch falls on depends on the machine's zone.
    let mut saw_short_month = false;
    let mut saw_short_hour = false;
    for i in 0..400i64 {
        let s = docsis_monitor::version::format(1_767_236_523 + i * 86_400 + i * 3_607);
        let rest = s.split_once(' ').expect("epoch then the rest").1;
        let (date, time) = rest.split_once(' ').expect("date then time");
        let d: Vec<&str> = date.split('-').collect();
        let t: Vec<&str> = time.split(':').collect();
        assert_eq!(t[1].len(), 2, "the minute must be padded: {s}");
        assert_eq!(t[2].len(), 2, "the second must be padded: {s}");
        for part in [d[1], d[2], t[0]] {
            assert!(
                part.len() == 1 || !part.starts_with('0'),
                "the date and hour must not be padded: {s}"
            );
        }
        saw_short_month |= d[1].len() == 1;
        saw_short_hour |= t[0].len() == 1;
    }
    assert!(
        saw_short_month && saw_short_hour,
        "the samples never reached a single-digit month or hour"
    );
}

#[test]
fn an_unbuildable_stamp_is_visibly_wrong_rather_than_plausible() {
    // Zero is what an unreadable executable yields. It must not look like a
    // real build, because a plausible lie is worse than a visible gap.
    assert!(docsis_monitor::version::format(0).starts_with("0 19"), "{}", docsis_monitor::version::format(0));
}

#[test]
fn a_real_binary_reports_a_time_that_is_not_the_epoch() {
    let written = SystemTime::now()
        .duration_since(UNIX_EPOCH)
        .expect("a clock past the epoch")
        .as_secs();
    let got = build_epoch(None, Some(written));
    assert!(
        got > 1_700_000_000,
        "build_epoch() gave {got}, so the time that it was handed was not used"
    );
}

#[test]
fn the_date_is_the_one_the_zone_has() {
    for epoch in [0i64, 1_757_355_354, 1_788_637_958, -1, -86_400 * 365 * 100, 253_402_207_200] {
        let z = jiff::Timestamp::from_second(epoch)
            .expect("a date")
            .to_zoned(jiff::tz::TimeZone::system());
        let want = format!(
            "{epoch} {}-{}-{} {}:{:02}:{:02}",
            z.year(),
            z.month(),
            z.day(),
            z.hour(),
            z.minute(),
            z.second()
        );
        assert_eq!(docsis_monitor::version::format(epoch), want);
        let t = local(epoch).expect("a date");
        assert_eq!(
            (t.year, t.month, t.day, t.hour, t.minute, t.second),
            (z.year(), z.month(), z.day(), z.hour(), z.minute(), z.second())
        );
        assert_eq!(t.stamp, z.strftime("%Y-%m-%d %H:%M:%S %Z").to_string());
    }
}

#[test]
fn an_epoch_beyond_any_date_is_a_number_and_nothing_more() {
    for epoch in [i64::MIN, -377_705_023_202, 253_402_207_201, i64::MAX] {
        assert!(local(epoch).is_none(), "{epoch}");
        assert_eq!(
            docsis_monitor::version::format(epoch),
            format!("{epoch} (not a representable date)")
        );
    }
    assert!(local(-377_705_023_201).is_some());
    assert!(local(253_402_207_200).is_some());
    assert_eq!(
        local_stamp(253_402_207_201),
        "253402207201 (not a representable date)"
    );
}

#[test]
fn a_date_is_written_from_its_parts() {
    let t = local(1_757_355_354).map(|mut t| {
        t.year = 2026;
        t.month = 9;
        t.day = 5;
        t.hour = 7;
        t.minute = 5;
        t.second = 3;
        t.stamp = "2026-09-05 07:05:03 MDT".to_owned();
        t
    });
    assert_eq!(format_with(17, &t), "17 2026-9-5 7:05:03");
    assert_eq!(stamp_of(17, &t), "2026-09-05 07:05:03 MDT");
    assert_eq!(stamp_of(17, &None), "17 (not a representable date)");
    assert_eq!(format_with(-17, &None), "-17 (not a representable date)");
}

#[test]
fn a_pinned_build_time_is_believed_when_it_is_one() {
    assert_eq!(build_epoch(Some("1788637958"), Some(5)), 1_788_637_958);
    assert_eq!(build_epoch(Some(" +12\n"), None), 12);
    assert_eq!(build_epoch(Some("-7"), None), -7);
    assert_eq!(build_epoch(Some("9223372036854775807"), None), i64::MAX);
    assert_eq!(build_epoch(Some("-9223372036854775808"), None), i64::MIN);
    for not in ["", " ", "-", "+", "1x", "1 2", "9223372036854775808", "-9223372036854775809", "--1"] {
        assert_eq!(build_epoch(Some(not), Some(5)), 5, "{not:?}");
    }
    assert_eq!(build_epoch(None, None), 0, "neither is known");
    assert_eq!(build_epoch(None, Some(u64::MAX)), 0, "nor is that a time");
    assert_eq!(build_stamp(Some("0"), None), docsis_monitor::version::format(0));
    assert_eq!(build_stamp(None, Some(1_788_637_958)), docsis_monitor::version::format(1_788_637_958));
}
