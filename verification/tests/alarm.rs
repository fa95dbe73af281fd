use docsis_monitor::alarm::{judge_relay, worst, RelayVerdict, Repeats, State};
use docsis_monitor::ratio::{Fraction, Share};

#[test]
fn an_outage_lasting_an_afternoon_is_one_trap() {
    let mut r = Repeats::new(900);
    assert!(r.should_send(&State::Quiet, 0), "the first one goes");
    assert!(!r.should_send(&State::Quiet, 300), "not five minutes later");
    assert!(!r.should_send(&State::Quiet, 899));
    assert!(r.should_send(&State::Quiet, 900), "due again");
}

#[test]
fn a_change_of_state_always_goes_out() {
    let mut r = Repeats::new(900);
    assert!(r.should_send(&State::Quiet, 0));
    assert!(
        r.should_send(&State::Unanswered, 10),
        "a different fault is not a repeat"
    );
    assert!(
        r.should_send(&State::Working, 20),
        "recovery is worth knowing"
    );
    assert!(
        !r.should_send(&State::Working, 5000),
        "and is not repeated for ever"
    );
}

#[test]
fn a_working_plant_says_nothing_to_start_with() {
    let mut r = Repeats::new(900);
    assert!(!r.should_send(&State::Working, 0));
    assert!(!r.should_send(&State::Working, 10_000));
}

fn verdict(idle: Option<u64>, allowed: u64, req: u64, rep: u64) -> RelayVerdict {
    let least = Share::parse(&format!("{}", 0.75f64)).expect("a fraction");
    judge_relay(req, rep, idle, allowed, &least)
}

#[test]
fn the_same_silence_is_normal_on_one_cmts_and_an_outage_on_another() {
    // Four thousand modems: nothing for six minutes is wrong.
    assert_eq!(verdict(Some(360), 300, 0, 0).state, State::Quiet);
    // Forty modems, an hour of headroom: the same six minutes is Tuesday.
    assert_eq!(verdict(Some(360), 3_600, 0, 0).state, State::Working);
}

#[test]
fn an_interface_at_its_limit_is_not_yet_quiet() {
    assert_eq!(verdict(Some(300), 300, 1, 1).state, State::Working);
    assert_eq!(verdict(Some(301), 300, 1, 1).state, State::Quiet);
}

#[test]
fn an_interface_that_has_never_spoken_is_not_an_outage() {
    assert_eq!(verdict(None, 300, 0, 0).state, State::Working);
}

#[test]
fn an_interface_being_ignored_is_its_own_verdict() {
    assert_eq!(verdict(Some(10), 300, 100, 10).state, State::Unanswered);
    assert_eq!(verdict(Some(10), 300, 100, 90).state, State::Working);
    // And silence wins over it: a plant with nothing arriving is quiet,
    // whatever the ratio over the handful that did.
    assert_eq!(verdict(Some(9_000), 300, 100, 10).state, State::Quiet);
}

#[test]
fn a_handful_of_requests_is_not_enough_to_call_it_unanswered() {
    assert_eq!(verdict(Some(10), 300, 4, 0).state, State::Working);
    assert_eq!(verdict(Some(10), 300, 5, 0).state, State::Unanswered);
}

#[test]
fn one_bad_interface_decides_the_plant() {
    let mut all = vec![verdict(Some(1), 300, 100, 100); 11];
    assert_eq!(worst(&all), State::Working);
    all.push(verdict(Some(1), 300, 100, 5));
    assert_eq!(worst(&all), State::Unanswered);
    all.push(verdict(Some(9_000), 300, 0, 0));
    assert_eq!(worst(&all), State::Quiet, "silence outranks everything");
    all.reverse();
    assert_eq!(worst(&all), State::Quiet, "in any order");
}

#[test]
fn a_plant_with_no_interfaces_at_all_is_not_an_alarm() {
    assert_eq!(worst(&[]), State::Working);
}

#[test]
fn a_verdict_carries_what_it_was_made_from() {
    let v = verdict(Some(7), 300, 1, 1);
    assert_eq!(v.idle_for, Some(7));
    assert_eq!(v.idle_allowed, 300);
}

#[test]
fn exactly_the_least_fraction_is_enough() {
    assert_eq!(verdict(Some(1), 300, 100, 75).state, State::Working);
    assert_eq!(verdict(Some(1), 300, 100, 74).state, State::Unanswered);
    // A tenth is a tenth, whatever a binary fraction makes of it.
    let tenth = Share::parse("0.1").expect("a fraction");
    assert_eq!(judge_relay(10, 1, Some(1), 300, &tenth).state, State::Working);
    assert_eq!(judge_relay(11, 1, Some(1), 300, &tenth).state, State::Unanswered);
}

#[test]
fn states_have_their_words() {
    assert_eq!(State::Working.word(), "working");
    assert_eq!(State::Quiet.word(), "quiet");
    assert_eq!(State::Unanswered.word(), "unanswered");
    assert!(!State::Working.is_trouble());
    assert!(State::Quiet.is_trouble());
    assert!(State::Unanswered.is_trouble());
}

#[test]
fn what_did_not_arrive_is_sent_again() {
    let mut r = Repeats::new(900);
    assert!(r.should_send(&State::Quiet, 0));
    r.undelivered();
    assert!(r.should_send(&State::Quiet, 300), "the next window tries again");
    assert!(!r.should_send(&State::Quiet, 600), "and that one arrived");
    assert!(r.should_send(&State::Working, 700));
    r.undelivered();
    assert!(r.should_send(&State::Working, 800), "so does a recovery");
    assert!(!r.should_send(&State::Working, 900));
    assert!(r.should_send(&State::Unanswered, 1_000));
    r.undelivered();
    assert!(r.should_send(&State::Working, 1_100), "a change goes out all the same");

    let mut fresh = Repeats::new(900);
    fresh.undelivered();
    assert!(!fresh.should_send(&State::Working, 0), "nothing was said that could be lost");
}

#[test]
fn a_clock_that_steps_back_holds_the_repeat() {
    let mut r = Repeats::new(900);
    assert!(r.should_send(&State::Quiet, 5_000));
    assert!(!r.should_send(&State::Quiet, 10));
    let mut often = Repeats::new(0);
    assert!(often.should_send(&State::Quiet, 5_000));
    assert!(often.should_send(&State::Quiet, 10), "nought repeats every window");
}

/// Whether `num` out of `den` is less than what a text writes.
fn is_less(num: u64, den: u64, text: &str) -> bool {
    Fraction { num, den }.less_than(&Share::parse(text).expect("a fraction"))
}

#[test]
fn a_decimal_is_read_as_a_fraction() {
    for (text, num, den) in
        [("0.75", 75u64, 100u64), ("1", 1, 1), ("1.00", 1, 1), ("0.5", 1, 2), ("00.250", 1, 4)]
    {
        assert!(!is_less(num, den, text), "{text}");
        assert!(is_less(num * 1_000_000 - 1, den * 1_000_000, text), "{text}");
        assert!(!is_less(num * 1_000_000 + 1, den * 1_000_000, text), "{text}");
    }
    for nought in ["0", "-0", "0.0", "-0.000"] {
        assert!(!is_less(0, 1, nought), "{nought}");
    }
    for not in ["", "-", ".5", "1.", "75", "1.01", "2", "-0.5", "NaN", "inf", "1e-3", "0.7 5", "+1"] {
        assert!(Share::parse(not).is_none(), "{not:?}");
    }
}

#[test]
fn every_digit_of_a_decimal_counts() {
    // A third lies between these two, which differ in the last digit alone.
    for digits in [1usize, 17, 18, 19, 38, 39, 400] {
        let below = format!("0.{}", "3".repeat(digits));
        let above = format!("0.{}4", "3".repeat(digits - 1));
        assert!(!is_less(1, 3, &below), "{below}");
        assert!(is_less(1, 3, &above), "{above}");
    }
    let least = Share::parse(&format!("0.{}", "3".repeat(30))).expect("a fraction");
    assert_eq!(judge_relay(6, 2, Some(1), 300, &least).state, State::Working);
    // The smallest that a float can be is still more than nothing, and less
    // than one answer to as many requests as can be counted.
    let smallest = format!("{}", f64::from_bits(1));
    assert!(is_less(0, 1, &smallest), "{smallest}");
    assert!(!is_less(1, u64::MAX, &smallest));
    assert!(!is_less(1, u64::MAX, "0.00000000000000000005"), "one in twenty million million million");
    assert!(is_less(1, u64::MAX, "0.00000000000000000006"));
}

#[test]
fn fractions_are_compared_exactly() {
    assert!(is_less(333_333_333, 1_000_000_000, "0.3333333334"));
    assert!(!is_less(1, 3, "0.333333333"));
    assert!(!is_less(u64::MAX, u64::MAX, "1"));
    assert!(is_less(u64::MAX - 1, u64::MAX, "1"));
    assert!(is_less(u64::MAX - 1, u64::MAX, "1.000"));
    assert!(!is_less(u64::MAX, 1, "1"), "more than all of it");
    assert!(!is_less(8, 2, "0.999"));
}
