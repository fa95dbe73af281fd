use std::time::Duration;

use docsis_monitor::logfiles::{
    banner, nowhere_to_log, Beat, Heartbeat, HEARTBEAT, LOG_FILE, PID_FILE, STEM,
};

#[test]
fn both_files_are_named_after_the_program() {
    assert_eq!(STEM, "docsis_monitor");
    assert_eq!(LOG_FILE, format!("{STEM}.log"));
    assert_eq!(PID_FILE, format!("{STEM}.pid"));
}

#[test]
fn the_heartbeat_is_the_minute_the_other_programs_use() {
    assert_eq!(Duration::from_secs(HEARTBEAT), Duration::from_secs(60));
}

#[test]
fn a_lasting_failure_is_told_once() {
    let mut h = Heartbeat::new();
    assert_eq!(h.beat(true), Beat::Nothing);
    assert_eq!(h.beat(false), Beat::Failed);
    assert_eq!(h.beat(false), Beat::Nothing);
    assert_eq!(h.beat(false), Beat::Nothing);
    assert_eq!(h.beat(true), Beat::Recovered);
    assert_eq!(h.beat(true), Beat::Nothing);
    assert_eq!(h.beat(false), Beat::Failed);
}

#[test]
fn a_log_says_which_build_wrote_it() {
    assert_eq!(
        banner("1788637958 2026-9-5 13:52:38", 4321),
        "--- docsis_monitor 1788637958 2026-9-5 13:52:38 pid 4321 ---"
    );
}

#[test]
fn nowhere_to_log_names_both_ways_out() {
    assert_eq!(
        nowhere_to_log("/home/noc/logs"),
        "there is no /home/noc/logs directory, so a background run would have nowhere to say \
         anything and nothing to write a PID file to. Either `mkdir /home/noc/logs` or pass \
         --nofork to keep it on this terminal."
    );
}
