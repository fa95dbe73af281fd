use docsis_monitor::addr::{IpAddr, Ipv4Addr, Ipv6Addr};
use docsis_monitor::alarm::{Repeats, State};
use docsis_monitor::capture::{
    build, build_from, busiest, end_of, find, flow_lines, found, heading, heading_under, host_name,
    host_name_with, judge_each, lines_for_suggestions, mail_line, not_allowed, not_ethernet,
    opening, per_relay_lines, should_tell, suggestion_lines, trap_line, window_line, Ends, Report,
    Step, Watch,
};
use docsis_monitor::clock::local_stamp;
use docsis_monitor::config::{
    default_community, default_prefix, default_report, default_smtp_port, default_trap_port,
    default_window, Config, PerRelay, RelayThreshold, Setting, Smtp, Snmp, Target, Thresholds,
};
use docsis_monitor::counters::{Counters, Dest, Flow, Window};
use docsis_monitor::packet::{Kind, Seen};
use docsis_monitor::relays::Relays;
use docsis_monitor::snmp::{Trap, Value};

fn text(v: &serde_json::Value, key: &str) -> Option<String> {
    v.get(key).and_then(|s| s.as_str()).map(str::to_owned)
}

fn number(v: &serde_json::Value, key: &str) -> Option<u64> {
    v.get(key).and_then(|n| n.as_u64())
}

/// The settings of a section that its fields do not include.
fn others(v: &serde_json::Value, section: &str, known: &[&str]) -> Vec<Setting> {
    v.as_object().map_or_else(Vec::new, |o| {
        o.keys()
            .filter(|k| !known.contains(&k.as_str()))
            .map(|k| Setting { section: section.to_owned(), key: k.clone() })
            .collect()
    })
}

/// Reads a configuration out of JSON, with a default for what it leaves out.
fn parse(json: &str) -> Option<Config> {
    let v: serde_json::Value = serde_json::from_str(json).ok()?;
    let mut thresholds = Thresholds::default();
    let mut extra = others(
        &v,
        "",
        &[
            "interface",
            "nofork",
            "window",
            "report_every",
            "thresholds",
            "snmp",
            "per_relay",
            "smtp",
        ],
    );
    if let Some(t) = v.get("thresholds") {
        if let Some(f) = t.get("min_answered") {
            thresholds.min_answered = format!("{}", f.as_f64()?);
        }
        thresholds.idle_seconds = number(t, "idle_seconds").unwrap_or(thresholds.idle_seconds);
        thresholds.resend_after = number(t, "resend_after").unwrap_or(thresholds.resend_after);
        extra.extend(others(t, "thresholds", &["min_answered", "idle_seconds", "resend_after"]));
    }
    let mut snmp = Snmp::default();
    if let Some(s) = v.get("snmp") {
        snmp.sysname = text(s, "sysname");
        for t in s.get("targets").and_then(|t| t.as_array()).into_iter().flatten() {
            snmp.targets.push(Target {
                host: text(t, "host")?,
                port: number(t, "port").map_or(default_trap_port(), |p| p as u16),
                community: text(t, "community").unwrap_or_else(default_community),
            });
        }
    }
    let smtp = match v.get("smtp") {
        None => None,
        Some(s) => Some(Smtp {
            server: text(s, "server")?,
            port: number(s, "port").map_or(default_smtp_port(), |p| p as u16),
            from: text(s, "from")?,
            to: s
                .get("to")
                .and_then(|t| t.as_array())
                .into_iter()
                .flatten()
                .filter_map(|t| t.as_str())
                .map(str::to_owned)
                .collect(),
            subject_prefix: text(s, "subject_prefix").unwrap_or_else(default_prefix),
            username: text(s, "username"),
            password: text(s, "password"),
            helo_name: text(s, "helo_name"),
        }),
    };
    let mut limits: Vec<(String, RelayThreshold)> = Vec::new();
    for (gi, t) in v.get("per_relay").and_then(|p| p.as_object()).into_iter().flatten() {
        let idle_seconds = number(t, "idle_seconds")?;
        limits.push((gi.clone(), RelayThreshold { idle_seconds }));
    }
    Some(Config {
        interface: text(&v, "interface")?,
        nofork: v.get("nofork").and_then(|b| b.as_bool()).unwrap_or(false),
        window: number(&v, "window").unwrap_or_else(default_window),
        report_every: number(&v, "report_every").unwrap_or_else(default_report),
        thresholds,
        snmp,
        per_relay: PerRelay::from_entries(&limits),
        smtp,
        extra,
    })
}

fn config(json: &str) -> Config {
    parse(json).expect("a configuration")
}

fn percent(w: Window) -> String {
    let f = w.answered();
    format!("{:.0}", f.num as f64 / f.den as f64 * 100.0)
}

fn names() -> Vec<String> {
    vec!["lo".to_owned(), "ens18".to_owned()]
}

#[test]
fn a_missing_interface_names_the_ones_there_are() {
    let text = find("definitely-not-an-interface", &names()).expect_err("no such interface");
    assert!(text.contains("definitely-not-an-interface"), "{text}");
    assert!(text.contains("It has:"), "{text}");
    // Every host has a loopback, so the list is never empty.
    assert!(text.contains("lo"), "{text}");
    assert_eq!(
        text,
        "this host has no interface called definitely-not-an-interface. It has: lo, ens18"
    );
}

#[test]
fn with_nowhere_to_send_nothing_is_said() {
    let cfg = config(r#"{"interface":"eth0"}"#);
    let mut r = Repeats::new(900);
    assert!(!should_tell(&cfg, &mut r, &State::Quiet, 0));
    assert!(!should_tell(&cfg, &mut r, &State::Unanswered, 1_000));
    assert!(!should_tell(&cfg, &mut r, &State::Working, 2_000));
}

#[test]
fn a_relay_added_later_hears_about_the_outage_at_once() {
    let quiet = config(r#"{"interface":"eth0"}"#);
    let mut r = Repeats::new(900);
    for t in 0..5 {
        assert!(!should_tell(&quiet, &mut r, &State::Quiet, t * 300));
    }
    let now_configured =
        config(r#"{"interface":"eth0","smtp":{"server":"mail","from":"a@b","to":["c@d"]}}"#);
    assert!(
        should_tell(&now_configured, &mut r, &State::Quiet, 1_500),
        "the outage is still on and nobody has been told yet"
    );
}

#[test]
fn a_mail_relay_alone_is_somewhere_to_send() {
    let cfg = config(r#"{"interface":"eth0","smtp":{"server":"mail","from":"a@b","to":["c@d"]}}"#);
    let mut r = Repeats::new(900);
    assert!(should_tell(&cfg, &mut r, &State::Quiet, 0));
    assert!(
        !should_tell(&cfg, &mut r, &State::Quiet, 300),
        "not again yet"
    );
}

#[test]
fn a_report_opens_with_a_blank_line_then_the_stamp_then_the_window() {
    let cfg = config(r#"{"interface":"eth0","window":300}"#);
    let at: u64 = 1_757_355_354;
    let mut counts = Counters::new(cfg.window);
    let w = counts.window(at);
    let head = heading(&cfg, w, &percent(w), &State::Working, at);
    let lines: Vec<&str> = head.split('\n').collect();
    assert_eq!(
        lines.len(),
        3,
        "three lines, the first of them empty: {head:?}"
    );
    assert_eq!(lines[0], "", "a report opens with a blank line");
    assert_eq!(lines[1], local_stamp(at), "then the local time, alone");
    assert!(
        lines[2].starts_with("300s window:"),
        "then the window: {:?}",
        lines[2]
    );
}

#[test]
fn the_stamp_carries_the_local_date_and_time_in_order() {
    let at: u64 = 1_757_355_354;
    let z = jiff::Timestamp::from_second(i64::try_from(at).expect("in range"))
        .expect("a date")
        .to_zoned(jiff::tz::TimeZone::system());
    let want = format!(
        "{:04}-{:02}-{:02} {:02}:{:02}:{:02} ",
        z.year(),
        z.month(),
        z.day(),
        z.hour(),
        z.minute(),
        z.second()
    );
    let got = local_stamp(at);
    assert!(got.starts_with(&want), "{got:?} does not start {want:?}");
    assert!(
        got.len() > want.len(),
        "the zone is named as well, or a log moved between machines is ambiguous: {got:?}"
    );
}

#[test]
fn a_later_report_carries_a_later_stamp() {
    let a = local_stamp(1_757_355_354);
    let b = local_stamp(1_757_355_354 + 60);
    assert_ne!(a, b);
}

#[test]
fn an_unrepresentable_clock_says_the_number_instead_of_a_date() {
    let got = local_stamp(u64::MAX);
    assert!(got.contains(&u64::MAX.to_string()), "{got:?}");
    assert!(!got.contains('-'), "no date was invented: {got:?}");
}

#[test]
fn a_trap_target_alone_is_somewhere_to_send() {
    let cfg = config(r#"{"interface":"eth0","snmp":{"targets":[{"host":"10.0.0.9"}]}}"#);
    let mut r = Repeats::new(900);
    assert!(should_tell(&cfg, &mut r, &State::Quiet, 0));
}

#[test]
fn a_mail_section_with_no_recipients_is_nowhere_to_send() {
    let cfg = config(r#"{"interface":"eth0","smtp":{"server":"mail","from":"a@b","to":[]}}"#);
    let mut r = Repeats::new(900);
    assert!(!should_tell(&cfg, &mut r, &State::Quiet, 0));
}

#[test]
fn the_loopback_is_found_by_name() {
    let lo = find("lo", &names()).expect("every host has a loopback");
    assert_eq!(names()[lo], "lo");
    assert_eq!(find("ens18", &names()), Ok(1));
}

#[test]
fn a_window_reads_as_one_line() {
    let cfg = config(r#"{"interface":"eth0","window":60}"#);
    let w = Window { requests: 4, replies: 3, tftp_reads: 2, tftp_sends: 1 };
    let line = "60s window: 4 requests, 3 replies (75% answered), 2 tftp requests, 1 tftp sends \
                \u{2014} unanswered";
    assert_eq!(window_line(&cfg, w, &percent(w), &State::Unanswered), line);
    assert_eq!(
        heading_under("2026-09-08 12:15:54 MDT", &cfg, w, &percent(w), &State::Unanswered),
        format!("\n2026-09-08 12:15:54 MDT\n{line}")
    );
}

#[test]
fn the_opening_says_what_is_watched_and_who_is_told() {
    let says = |json: &str| opening(&config(json), None);
    assert_eq!(
        says(r#"{"interface":"eth0","report_every":0}"#),
        vec![
            "watching eth0: judging on the last 300s, reporting every 1s, no trap targets and \
             no mail relay: the log only"
        ]
    );
    assert_eq!(
        says(
            r#"{"interface":"eth0","window":60,
                "snmp":{"targets":[{"host":"a"},{"host":"b"}]},
                "smtp":{"server":"m","from":"a@b","to":["c@d","e@f"]},
                "per_relay":{"10.100.0.1":{"idle_seconds":1},"10.100.0.2":{"idle_seconds":2}}}"#
        ),
        vec![
            "watching eth0: judging on the last 60s, reporting every 300s, 2 trap target(s) and \
             mail to c@d, e@f"
                .to_owned(),
            "  per-interface thresholds for: 10.100.0.1, 10.100.0.2".to_owned(),
        ]
    );
    assert!(says(r#"{"interface":"eth0","snmp":{"targets":[{"host":"a"}]}}"#)[0]
        .ends_with(", 1 trap target(s)"));
    assert!(
        says(r#"{"interface":"eth0","smtp":{"server":"m","from":"a@b","to":["c@d"]}}"#)[0]
            .ends_with(", mail to c@d")
    );
    assert_eq!(
        opening(&config(r#"{"interface":"eth0"}"#), Some(60)),
        vec![
            "ADAPTATION: watching eth0 for 60 minute(s) to work out what idle means on each CMTS \
             interface. No alarms will be raised."
        ]
    );
}

#[test]
fn a_capture_that_cannot_be_opened_says_why() {
    assert_eq!(
        not_ethernet("tun0"),
        "tun0 is not an Ethernet interface, and this reads Ethernet frames"
    );
    assert_eq!(
        not_allowed("eth0"),
        "not allowed to capture on eth0. A capture socket belongs to root or to a binary with \
         CAP_NET_RAW: either run this as root, or grant it once with `setcap \
         cap_net_raw,cap_net_admin=eip <path to docsis_monitor>`."
    );
}

fn gi(n: u8) -> Ipv4Addr {
    Ipv4Addr::new(10, 100, 0, n)
}

fn seen(kind: Kind, from: u8, relay: Option<u8>, xid: Option<u32>) -> Seen {
    Seen {
        kind,
        src: IpAddr::V4(Ipv4Addr::new(10, 0, 0, from)),
        dst: IpAddr::V4(Ipv4Addr::new(10, 0, 0, 9)),
        gi: relay.map(gi),
        xid,
        sport: 67,
        dport: 67,
        bytes: 300,
    }
}

#[test]
fn each_interface_has_its_line() {
    let mut r = Relays::default();
    r.request(Some(gi(1)), Some(1), 1_000, 1_000_000);
    r.reply(Some(gi(1)), Some(1), 1_000, 1_000_004);
    r.request(Some(gi(2)), Some(2), 1_010, 1_010_000);
    r.tftp_request(1_011);
    let cfg = config(r#"{"interface":"eth0"}"#);
    let verdicts = judge_each(&r, &mut Counters::new(300), &cfg, 1_020);
    assert_eq!(
        per_relay_lines(&r, &verdicts, 1_020),
        vec![
            "    10.100.0.1             1 req       1 rep       1 answered, 4ms mean, 4ms worst  \
             idle 20s of 3600s \u{2014} working",
            "    10.100.0.2             1 req       0 rep       0 answered, nothing answered  \
             idle 10s of 3600s \u{2014} working",
            "    1 request(s) still waiting for an answer",
            "    (no gi-address)        0 req       0 rep  1 tftp requests, 0 tftp sends",
        ]
    );
    let mut only_reply = Relays::default();
    only_reply.reply(Some(gi(3)), None, 1_000, 1_000_000);
    let verdicts = judge_each(&only_reply, &mut Counters::new(300), &cfg, 9_000);
    assert_eq!(verdicts[0].state, State::Working, "it never spoke");
    assert_eq!(
        per_relay_lines(&only_reply, &verdicts, 9_000),
        vec![
            "    10.100.0.3             0 req       1 rep       0 answered, nothing answered  \
             idle never of 3600s \u{2014} working"
        ]
    );
}

fn flow(from: u8, relay: Option<u8>) -> Flow {
    Flow {
        src: IpAddr::V4(Ipv4Addr::new(10, 0, 0, from)),
        dst: IpAddr::V4(Ipv4Addr::new(10, 0, 0, 9)),
        gi: relay.map(gi),
    }
}

/// The ends of a flow between `IPv4` addresses, which need no text.
fn ends() -> Ends {
    Ends { src: "not looked at".to_owned(), dst: String::new() }
}

#[test]
fn the_busiest_conversations_are_listed() {
    let d = Dest { counts: [1, 22, 333, 4_444], last: 7 };
    let flows = vec![(flow(1, Some(1)), d), (flow(2, None), d)];
    let at = vec![ends(), ends()];
    assert_eq!(
        flow_lines(&flows, &at),
        vec![
            "           10.0.0.1 -> 10.0.0.9        gi 10.100.0.1          1 req     22 rep    333 \
             tftp-req   4444 tftp-send",
            "           10.0.0.2 -> 10.0.0.9                               1 req     22 rep    333 \
             tftp-req   4444 tftp-send",
        ]
    );
    assert_eq!(busiest(&flows, &at[1..].to_vec()), "10.0.0.1 via 10.100.0.1");
    assert_eq!(busiest(&flows[1..].to_vec(), &at), "10.0.0.2 -> 10.0.0.9");
    assert_eq!(busiest(&vec![], &vec![]), "none");
}

#[test]
fn only_an_ipv6_address_needs_its_text() {
    let d = Dest { counts: [1, 0, 0, 0], last: 7 };
    let six = IpAddr::V6(Ipv6Addr { bits: 1 });
    let four = IpAddr::V4(Ipv4Addr::new(10, 0, 0, 9));
    assert_eq!(end_of(six, "::1"), "::1");
    assert_eq!(end_of(four, "::1"), "10.0.0.9");
    let text = Ends { src: "::1".to_owned(), dst: "::2".to_owned() };
    for (src, dst, want) in [
        (six, six, "::1 -> ::2"),
        (six, four, "::1 -> 10.0.0.9"),
        (four, six, "10.0.0.9 -> ::2"),
        (four, four, "10.0.0.9 -> 10.0.0.9"),
    ] {
        let flows = vec![(Flow { src, dst, gi: None }, d)];
        let at = vec![text.clone()];
        assert_eq!(busiest(&flows, &at), want);
        let line = &flow_lines(&flows, &at)[0];
        let (from, to) = want.split_once(" -> ").expect("two ends");
        assert!(line.starts_with(&format!("    {from:>15} -> {to:<15}")), "{line}");
    }
}

#[test]
fn what_is_left_out_of_the_list_is_counted() {
    let d = Dest::default();
    let flows: Vec<(Flow, Dest)> = (0..15).map(|n| (flow(n, None), d)).collect();
    let at: Vec<Ends> = (0..12).map(|_| ends()).collect();
    let lines = flow_lines(&flows, &at);
    assert_eq!(lines.len(), 13);
    assert_eq!(lines[12], "    ... and 3 more");
    assert_eq!(flow_lines(&flows[..12].to_vec(), &at).len(), 12);
    assert_eq!(flow_lines(&flows[..3].to_vec(), &at[..3].to_vec()).len(), 3);
}

#[test]
fn a_trap_carries_the_finding() {
    let cfg = config(r#"{"interface":"eth0","window":60}"#);
    let w = Window { requests: 4, replies: 3, tftp_reads: 2, tftp_sends: 1 };
    for (state, which, word) in [
        (State::Quiet, 1, "quiet"),
        (State::Unanswered, 2, "unanswered"),
        (State::Working, 3, "working"),
    ] {
        let t = build_from("prov-1", &cfg, &state, w, 1_005, 1_000, "none");
        assert_eq!(t.uptime_ticks, 500, "hundredths of a second");
        assert_eq!(t.which, which);
        let fields: Vec<Vec<u64>> = t.bindings.iter().map(|(f, _)| f.clone()).collect();
        assert_eq!(fields, (1..=8).map(Trap::field).collect::<Vec<_>>());
        let said: Vec<String> = t
            .bindings
            .iter()
            .map(|(_, v)| match v {
                Value::Str(s) => s.clone(),
                Value::Count(n) => format!("{n}"),
                other => panic!("{other:?} is not in this trap"),
            })
            .collect();
        assert_eq!(said, vec!["prov-1", "eth0", word, "4", "3", "2", "60", "none"]);
    }
    let early = build(&cfg, &State::Quiet, w, 5, 10, "");
    assert_eq!(early.uptime_ticks, 0);
    assert!(matches!(&early.bindings[0].1, Value::Str(h) if *h == host_name(&cfg)));
    let named = config(r#"{"interface":"eth0","snmp":{"sysname":"docsis-prov-1"}}"#);
    let t = build(&named, &State::Quiet, w, 10, 10, "");
    assert!(matches!(&t.bindings[0].1, Value::Str(h) if h == "docsis-prov-1"));
}

#[test]
fn the_host_is_called_what_it_is_configured_as() {
    let named = config(r#"{"interface":"eth0","snmp":{"sysname":"docsis-prov-1"}}"#);
    assert_eq!(host_name(&named), "docsis-prov-1");
    assert_eq!(host_name_with(&named, Some("other".to_owned())), "docsis-prov-1");
    let plain = config(r#"{"interface":"eth0"}"#);
    assert_eq!(host_name_with(&plain, Some("other".to_owned())), "other");
    assert_eq!(host_name_with(&plain, None), "unknown");
    let system = nix::unistd::gethostname()
        .ok()
        .and_then(|h| h.into_string().ok())
        .unwrap_or_else(|| "unknown".to_owned());
    assert_eq!(host_name(&plain), system);
}

#[test]
fn what_was_sent_is_said_and_so_is_what_was_not() {
    let cfg = config(
        r#"{"interface":"eth0","snmp":{"targets":[{"host":"10.0.0.9"}]},
            "smtp":{"server":"mail","from":"a@b","to":["c@d","e@f"]}}"#,
    );
    let target = &cfg.snmp.targets[0];
    assert_eq!(
        trap_line(target, &State::Quiet, None),
        "    trap sent to 10.0.0.9:162 \u{2014} quiet"
    );
    assert_eq!(
        trap_line(target, &State::Quiet, Some("no route")),
        "    trap to 10.0.0.9:162 failed: no route"
    );
    let relay = cfg.mail().expect("a relay");
    assert_eq!(mail_line(relay, "s", None), "    mailed c@d, e@f via mail");
    assert_eq!(
        mail_line(relay, "s", Some("refused")),
        "    mail via mail failed: refused \u{2014} s"
    );
}

#[test]
fn the_interface_is_named_with_its_addresses() {
    assert_eq!(found("eth0", &vec![]), "watching eth0 (no address of its own)");
    assert_eq!(
        found("eth0", &vec!["10.0.0.1".to_owned(), "fe80::1".to_owned()]),
        "watching eth0 (10.0.0.1, fe80::1)"
    );
}

#[test]
fn suggestions_come_with_a_block_to_paste() {
    let mut r = Relays::default();
    assert_eq!(
        suggestion_lines(&r, 3_600),
        vec![
            "",
            "\u{2500}\u{2500}\u{2500} what this plant looks like after 60 \u{2500}\u{2500}\u{2500}",
            "  No CMTS relayed anything at all. Either nothing is being",
            "  provisioned, or this is not the interface the relays reach the",
            "  server on.",
        ]
    );
    for at in [1_000u64, 1_200] {
        r.request(Some(gi(1)), None, at, at * 1_000);
    }
    r.request(Some(gi(2)), None, 1_000, 1_000_000);
    r.tftp_send(1_000);
    let lines = suggestion_lines(&r, 3_600);
    assert_eq!(
        lines[2],
        "  10.100.0.1       idle_seconds 600     2 requests in 60m, longest silence 3m20s, times \
         3 for room"
    );
    assert!(lines[3].starts_with("  10.100.0.2       no suggestion \u{2014} only 1 request in 60m"));
    assert_eq!(
        lines[4],
        "  TFTP saw 0 requests and 1 sends. It is not alarmed on and has no"
    );
    assert!(lines
        .iter()
        .any(|l| l.contains(r#""10.100.0.1": { "idle_seconds": 600 }"#)));
    let all = docsis_monitor::adapt::suggest(&r, 3_600);
    assert_eq!(lines_for_suggestions(&all, r.unrelayed(), 3_600), lines);
    // The caveat comes before the block, and the block is the last thing said.
    let block = docsis_monitor::adapt::as_config(&all);
    assert_eq!(lines.last(), Some(&block));
    assert_eq!(lines.iter().filter(|l| **l == block).count(), 1);
}

/// The report that is due at a moment.
fn due(watch: &mut Watch, cfg: &Config, at: u64) -> Report {
    match watch.tick(cfg, at) {
        Step::Report(r) => r,
        other => panic!("no report is due at {at}: {other:?}"),
    }
}

#[test]
fn a_run_counts_judges_and_tells() {
    let cfg = config(
        r#"{"interface":"eth0","window":60,"report_every":10,
            "thresholds":{"idle_seconds":30},"snmp":{"targets":[{"host":"a"}]}}"#,
    );
    let mut watch = Watch::start(&cfg, 1_000, None, None);
    assert!(!watch.finished(u64::MAX), "it runs until it is interrupted");
    assert!(matches!(watch.tick(&cfg, 1_009), Step::Wait));
    for xid in 0..8u32 {
        let asked = seen(Kind::ClientRequest, 1, Some(1), Some(xid));
        assert!(watch.has_room(&asked, 1_001_000));
        watch.observe(asked, 1_001, 1_001_000);
    }
    // The answers carry no gi-address, and belong to the interface that asked.
    for xid in 0..7u32 {
        watch.observe(seen(Kind::ServerReply, 9, None, Some(xid)), 1_001, 1_001_005);
    }
    watch.observe(seen(Kind::TftpRequest, 1, None, None), 1_002, 1_002_000);
    watch.observe(seen(Kind::TftpReply, 9, None, None), 1_002, 1_002_000);

    let r = due(&mut watch, &cfg, 1_010);
    assert!(
        matches!(watch.tick(&cfg, 1_019), Step::Wait),
        "the next one is ten seconds later"
    );
    assert_eq!(r.window, Window { requests: 8, replies: 7, tftp_reads: 1, tftp_sends: 1 });
    assert_eq!(r.state, State::Working, "seven of eight were answered");
    assert!(!r.tell_traps, "a working plant says nothing to start with");
    assert_eq!(r.flows.len(), 3, "the server answers both protocols on one flow");

    let r = due(&mut watch, &cfg, 1_040);
    assert_eq!(r.state, State::Quiet, "39 seconds without a request");
    assert!(r.tell_traps);
    assert!(!r.tell_mail, "there is no relay");
    assert!(!due(&mut watch, &cfg, 1_050).tell_traps, "not again yet");
    assert_eq!(
        watch.closing(),
        vec!["stopping: 8 requests, 7 replies, 1 tftp requests seen in all"]
    );
}

#[test]
fn an_interface_is_judged_by_the_window_and_not_by_its_past() {
    let cfg = config(r#"{"interface":"eth0","window":60,"report_every":60}"#);
    let mut watch = Watch::start(&cfg, 1_000, None, None);
    for xid in 0..100u32 {
        watch.observe(seen(Kind::ClientRequest, 1, Some(1), Some(xid)), 1_000, 1_000_000);
        watch.observe(seen(Kind::ServerReply, 9, Some(1), Some(xid)), 1_000, 1_000_001);
    }
    assert_eq!(watch.report(&cfg, 1_000).state, State::Working);
    for xid in 0..10u32 {
        watch.observe(seen(Kind::ClientRequest, 1, Some(1), Some(xid)), 1_100, 1_100_000);
    }
    let r = watch.report(&cfg, 1_100);
    assert_eq!(r.window, Window { requests: 10, ..Window::default() });
    assert_eq!(r.state, State::Unanswered, "none of the last ten was answered");
}

#[test]
fn an_adaptation_run_ends_and_raises_no_alarm() {
    // Somebody is configured to be told, and a silence of ten seconds is one to
    // tell about.
    let cfg = config(
        r#"{"interface":"eth0","window":60,"report_every":10,
            "thresholds":{"idle_seconds":10},"snmp":{"targets":[{"host":"a"}]},
            "smtp":{"server":"mail","from":"a@b","to":["c@d"]}}"#,
    );
    let mut watch = Watch::start(&cfg, 1_000, Some(5), Some(2));
    assert!(!watch.finished(1_119), "two minutes, whatever else was asked");
    assert!(watch.finished(1_120));
    watch.observe(seen(Kind::ClientRequest, 1, Some(1), None), 1_001, 1_001_000);
    assert!(matches!(watch.tick(&cfg, 1_009), Step::Wait));
    for (at, requests) in [(1_010u64, 1), (1_060, 1), (1_070, 0)] {
        match watch.tick(&cfg, at) {
            Step::Progress(line) => assert_eq!(
                line,
                format!(
                    "  still watching: {requests} requests, 0 replies, 0 tftp requests in the \
                     last window"
                )
            ),
            other => panic!("{other:?} at {at}"),
        }
        assert!(matches!(watch.tick(&cfg, at + 9), Step::Wait));
    }
    let r = watch.report(&cfg, 1_100);
    assert_eq!(r.state, State::Quiet, "99 seconds without a request");
    assert!(!r.tell_traps && !r.tell_mail, "and nobody is told");
    assert_eq!(watch.closing(), suggestion_lines(&watch.relays, 120));

    // The same packets in an ordinary run are a reason to tell both.
    let mut plain = Watch::start(&cfg, 1_000, None, None);
    plain.observe(seen(Kind::ClientRequest, 1, Some(1), None), 1_001, 1_001_000);
    let r = due(&mut plain, &cfg, 1_070);
    assert!(r.tell_traps && r.tell_mail);

    let timed = Watch::start(&cfg, 1_000, Some(5), None);
    assert!(!timed.finished(1_004));
    assert!(timed.finished(1_005));
    assert!(!timed.finished(10), "a clock that steps back ends nothing");
}

#[test]
fn one_interface_is_not_judged_by_anothers_packets() {
    let cfg = config(r#"{"interface":"eth0","window":60,"thresholds":{"idle_seconds":30}}"#);
    let mut watch = Watch::start(&cfg, 1_000, None, None);
    for xid in 0..10u32 {
        watch.observe(seen(Kind::ClientRequest, 1, Some(1), Some(xid)), 1_000, 1_000_000);
        watch.observe(seen(Kind::ServerReply, 9, None, Some(xid)), 1_000, 1_000_001);
    }
    // A second interface that nobody answers, and then a first one that falls
    // silent while the second goes on.
    for xid in 100..110u32 {
        watch.observe(seen(Kind::ClientRequest, 2, Some(2), Some(xid)), 1_010, 1_010_000);
    }
    let states = |r: &docsis_monitor::capture::Report| -> Vec<State> {
        r.verdicts.iter().map(|v| v.state).collect()
    };
    let r = watch.report(&cfg, 1_010);
    assert_eq!(states(&r), vec![State::Working, State::Unanswered]);
    assert_eq!(r.state, State::Unanswered);
    let r = watch.report(&cfg, 1_031);
    assert_eq!(states(&r), vec![State::Quiet, State::Unanswered]);
    assert_eq!(r.state, State::Quiet);
}

#[test]
fn tftp_is_counted_and_not_alarmed_on() {
    let cfg = config(r#"{"interface":"eth0","window":60,"snmp":{"targets":[{"host":"a"}]}}"#);
    let mut watch = Watch::start(&cfg, 1_000, None, None);
    for _ in 0..100 {
        watch.observe(seen(Kind::TftpRequest, 1, None, None), 1_000, 1_000_000);
    }
    let r = watch.report(&cfg, 9_000);
    assert!(r.verdicts.is_empty());
    assert_eq!(r.state, State::Working);
    assert!(!r.tell_traps && !r.tell_mail);
    assert_eq!(watch.relays.unrelayed().tftp_requests, 100);
}

#[test]
fn a_failed_mail_does_not_repeat_the_traps() {
    let cfg = config(
        r#"{"interface":"eth0","window":60,"report_every":10,
            "thresholds":{"idle_seconds":10,"resend_after":900},
            "snmp":{"targets":[{"host":"a"}]},
            "smtp":{"server":"mail","from":"a@b","to":["c@d"]}}"#,
    );
    let mut watch = Watch::start(&cfg, 1_000, None, None);
    watch.observe(seen(Kind::ClientRequest, 1, Some(1), Some(1)), 1_001, 1_001_000);
    let r = due(&mut watch, &cfg, 1_020);
    assert_eq!(r.state, State::Quiet);
    assert!(r.tell_traps && r.tell_mail);
    // While the relay is down every window tries the mail again, and the traps
    // that went out are not sent a second time.
    for at in [1_030u64, 1_040, 1_050] {
        watch.undelivered();
        let r = due(&mut watch, &cfg, at);
        assert!(r.tell_mail, "the mail of the window before did not go out");
        assert!(!r.tell_traps, "the traps did");
    }
    let r = due(&mut watch, &cfg, 1_060);
    assert!(!r.tell_mail && !r.tell_traps, "the last mail went out");

    // The reminder is counted from what each channel was told.
    let r = due(&mut watch, &cfg, 1_920);
    assert!(r.tell_traps, "900 seconds after the trap of 1020");
    assert!(!r.tell_mail, "870 seconds after the mail of 1050");
    assert!(due(&mut watch, &cfg, 1_950).tell_mail);
}

#[test]
fn a_recovery_goes_out_though_no_mail_of_the_trouble_did() {
    let cfg = config(
        r#"{"interface":"eth0","window":60,"report_every":10,
            "thresholds":{"idle_seconds":10},"snmp":{"targets":[{"host":"a"}]},
            "smtp":{"server":"mail","from":"a@b","to":["c@d"]}}"#,
    );
    let mut watch = Watch::start(&cfg, 1_000, None, None);
    watch.observe(seen(Kind::ClientRequest, 1, Some(1), Some(1)), 1_001, 1_001_000);
    assert!(due(&mut watch, &cfg, 1_020).tell_traps);
    watch.undelivered();
    for xid in 2..10u32 {
        watch.observe(seen(Kind::ClientRequest, 1, Some(1), Some(xid)), 1_030, 1_030_000);
        watch.observe(seen(Kind::ServerReply, 9, Some(1), Some(xid)), 1_030, 1_030_002);
    }
    let r = due(&mut watch, &cfg, 1_030);
    assert_eq!(r.state, State::Working);
    assert!(r.tell_traps, "the receiver shows an alarm that is over");
    assert!(r.tell_mail, "a change always goes out");
    let r = due(&mut watch, &cfg, 1_040);
    assert!(!r.tell_traps && !r.tell_mail);
}
