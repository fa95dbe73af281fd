use docsis_monitor::addr::Ipv4Addr;
use docsis_monitor::config::{
    default_community, default_prefix, default_report, default_smtp_port, default_trap_port,
    default_window, pick_path, search_paths, Config, PerRelay, Problem, RelayThreshold, Setting,
    Smtp, Snmp, Target, Thresholds, FILE,
};
use docsis_monitor::ratio::Fraction;

fn text(v: &serde_json::Value, key: &str) -> Option<String> {
    v.get(key).and_then(|s| s.as_str()).map(str::to_owned)
}

fn number(v: &serde_json::Value, key: &str) -> Option<u64> {
    v.get(key).and_then(|n| n.as_u64())
}

/// The settings of a section that its fields do not include.
fn others(v: &serde_json::Value, section: &str, known: &[&str]) -> Vec<Setting> {
    v.as_object().map_or_else(Vec::new, |o| {
        o.keys()
            .filter(|k| !known.contains(&k.as_str()))
            .map(|k| Setting { section: section.to_owned(), key: k.clone() })
            .collect()
    })
}

/// Reads a configuration out of JSON, with a default for what it leaves out.
fn config(json: &str) -> Option<Config> {
    let v: serde_json::Value = serde_json::from_str(json).ok()?;
    let mut thresholds = Thresholds::default();
    let mut extra = others(
        &v,
        "",
        &[
            "interface",
            "nofork",
            "window",
            "report_every",
            "thresholds",
            "snmp",
            "per_relay",
            "smtp",
        ],
    );
    if let Some(t) = v.get("thresholds") {
        if let Some(f) = t.get("min_answered") {
            thresholds.min_answered = format!("{}", f.as_f64()?);
        }
        thresholds.idle_seconds = number(t, "idle_seconds").unwrap_or(thresholds.idle_seconds);
        thresholds.resend_after = number(t, "resend_after").unwrap_or(thresholds.resend_after);
        extra.extend(others(t, "thresholds", &["min_answered", "idle_seconds", "resend_after"]));
    }
    let mut snmp = Snmp::default();
    if let Some(s) = v.get("snmp") {
        snmp.sysname = text(s, "sysname");
        for t in s.get("targets").and_then(|t| t.as_array()).into_iter().flatten() {
            snmp.targets.push(Target {
                host: text(t, "host")?,
                port: number(t, "port").map_or(default_trap_port(), |p| p as u16),
                community: text(t, "community").unwrap_or_else(default_community),
            });
        }
    }
    let smtp = match v.get("smtp") {
        None => None,
        Some(s) => Some(Smtp {
            server: text(s, "server")?,
            port: number(s, "port").map_or(default_smtp_port(), |p| p as u16),
            from: text(s, "from")?,
            to: s
                .get("to")
                .and_then(|t| t.as_array())
                .into_iter()
                .flatten()
                .filter_map(|t| t.as_str())
                .map(str::to_owned)
                .collect(),
            subject_prefix: text(s, "subject_prefix").unwrap_or_else(default_prefix),
            username: text(s, "username"),
            password: text(s, "password"),
            helo_name: text(s, "helo_name"),
        }),
    };
    let mut limits: Vec<(String, RelayThreshold)> = Vec::new();
    for (gi, t) in v.get("per_relay").and_then(|p| p.as_object()).into_iter().flatten() {
        let idle_seconds = number(t, "idle_seconds")?;
        limits.push((gi.clone(), RelayThreshold { idle_seconds }));
    }
    Some(Config {
        interface: text(&v, "interface")?,
        nofork: v.get("nofork").and_then(|b| b.as_bool()).unwrap_or(false),
        window: number(&v, "window").unwrap_or_else(default_window),
        report_every: number(&v, "report_every").unwrap_or_else(default_report),
        thresholds,
        snmp,
        per_relay: PerRelay::from_entries(&limits),
        smtp,
        extra,
    })
}

fn parse(json: &str) -> Result<Config, String> {
    let cfg = config(json).ok_or_else(|| "not a configuration".to_owned())?;
    cfg.check().map_err(|p| cfg.explain(p))?;
    Ok(cfg)
}

#[test]
fn the_smallest_useful_file_is_one_interface() {
    let cfg = parse(r#"{"interface": "eth0"}"#).expect("that is enough");
    assert_eq!(cfg.interface, "eth0");
    assert_eq!(cfg.window, 300);
    assert!(cfg.snmp.targets.is_empty(), "no traps unless asked");
}

#[test]
fn capturing_every_interface_at_once_is_refused() {
    let e = parse(r#"{"interface": "any"}"#).expect_err("must be refused");
    assert!(e.contains("one interface"), "{e}");
}

#[test]
fn an_interface_is_required() {
    assert!(parse(r#"{"interface": "  "}"#).is_err());
    assert!(config("{}").is_none());
}

#[test]
fn a_percentage_where_a_fraction_belongs_is_refused() {
    let e = parse(r#"{"interface":"eth0","thresholds":{"min_answered":75,"idle_seconds":300,"resend_after":900}}"#)
        .expect_err("75 is not a fraction");
    assert!(e.contains("fraction"), "{e}");
    assert!(e.ends_with("not a percentage: 75 was given"), "{e}");
}

#[test]
fn a_thresholds_block_may_name_one_setting_and_leave_the_rest() {
    let cfg = parse(r#"{"interface":"eth0","thresholds":{"idle_seconds":600}}"#)
        .expect("one setting is enough");
    assert_eq!(cfg.thresholds.idle_seconds, 600);
    let min_answered: f64 = cfg.thresholds.min_answered.parse().expect("a number");
    assert!(
        (min_answered - 0.75).abs() < 1e-9,
        "the rest keep their defaults"
    );
    assert_eq!(cfg.thresholds.resend_after, 900);
}

#[test]
fn a_window_of_zero_seconds_is_refused() {
    assert!(parse(r#"{"interface":"eth0","window":0}"#).is_err());
}

#[test]
fn a_trap_target_defaults_to_the_snmp_trap_port() {
    let cfg = parse(r#"{"interface":"eth0","snmp":{"targets":[{"host":"10.0.0.9"}]}}"#)
        .expect("parses");
    assert_eq!(cfg.snmp.targets[0].port, 162);
    assert_eq!(cfg.snmp.targets[0].community, "public");
}

#[test]
fn a_half_filled_mail_section_is_refused() {
    let e = parse(r#"{"interface":"eth0","smtp":{"server":"mail","from":"a@b","to":[]}}"#)
        .expect_err("nobody to send to");
    assert!(e.contains("names nobody"), "{e}");
    let e = parse(r#"{"interface":"eth0","smtp":{"server":"mail","from":"","to":["a@b"]}}"#)
        .expect_err("no sender");
    assert!(e.contains("no sender"), "{e}");
}

#[test]
fn a_complete_mail_section_is_usable_and_a_missing_one_is_nothing() {
    let cfg = parse(r#"{"interface":"eth0","smtp":{"server":"mail","from":"a@b","to":["c@d"]}}"#)
        .expect("parses");
    let m = cfg.mail().expect("usable");
    assert_eq!(m.port, 25);
    assert_eq!(m.subject_prefix, "[docsis]");
    assert!(m.username.is_none(), "no password unless asked for");

    assert!(
        parse(r#"{"interface":"eth0"}"#)
            .expect("parses")
            .mail()
            .is_none(),
        "no section means no mail"
    );
}

#[test]
fn a_misspelt_setting_is_named_and_a_comment_is_not() {
    let cfg = parse(r#"{"interface":"eth0","windwo":30,"// why":"a note"}"#).expect("parses");
    assert_eq!(cfg.unknown(), vec!["windwo"]);
    assert_eq!(
        cfg.report_unknown(),
        Some("ignoring 1 setting(s) this program does not know: windwo".to_owned())
    );
}

#[test]
fn the_users_own_directory_is_searched_first() {
    let paths = search_paths(Some("/home/noc"));
    assert!(paths.len() >= 2, "{paths:?}");
    assert!(paths.last().expect("a last path").starts_with("/etc"));
    assert!(paths.iter().all(|p| p.ends_with(FILE)), "{paths:?}");
    assert_eq!(
        paths,
        vec!["/home/noc/config/docsis_monitor.json", "/etc/docsis_monitor.json"]
    );
}

#[test]
fn each_problem_is_told_apart() {
    let problem = |json: &str| config(json).expect("a configuration").check();
    assert_eq!(problem(r#"{"interface":"eth0"}"#), Ok(()));
    assert_eq!(problem(r#"{"interface":"\t\n"}"#), Err(Problem::NoInterface));
    assert_eq!(problem(r#"{"interface":" any "}"#), Err(Problem::EveryInterface));
    assert_eq!(problem(r#"{"interface":"anything"}"#), Ok(()));
    assert_eq!(problem(r#"{"interface":"eth0","window":0}"#), Err(Problem::NoWindow));
    assert_eq!(
        problem(r#"{"interface":"eth0","smtp":{"server":"m","from":" ","to":[]}}"#),
        Err(Problem::NoRecipients)
    );
    assert_eq!(
        problem(r#"{"interface":"eth0","smtp":{"server":"m","from":" ","to":["a"]}}"#),
        Err(Problem::NoSender)
    );
    assert_eq!(
        problem(r#"{"interface":"eth0","smtp":{"server":"  ","from":"","to":[]}}"#),
        Ok(()),
        "no server is no section"
    );
    for (share, want) in [
        ("0", Ok(())),
        ("1", Ok(())),
        ("0.5", Ok(())),
        ("1.0000001", Err(Problem::NotAFraction)),
        ("-0.1", Err(Problem::NotAFraction)),
        ("75", Err(Problem::NotAFraction)),
    ] {
        assert_eq!(
            problem(&format!(
                r#"{{"interface":"eth0","thresholds":{{"min_answered":{share}}}}}"#
            )),
            want,
            "{share}"
        );
    }
}

#[test]
fn each_problem_has_its_words() {
    let cfg = config(r#"{"interface":"eth0"}"#).expect("a configuration");
    assert_eq!(
        cfg.explain(Problem::NoInterface),
        "`interface` must name the interface to watch"
    );
    assert_eq!(
        cfg.explain(Problem::EveryInterface),
        "`interface` must name one interface. \"any\" captures every wire at once, and a \
         monitor that cannot say WHICH wire went quiet cannot say anything worth acting on."
    );
    assert_eq!(
        cfg.explain(Problem::NoWindow),
        "`window` is how many seconds a judgement is made over; it cannot be 0"
    );
    assert_eq!(
        cfg.explain(Problem::NoRecipients),
        "`smtp.server` is set but `smtp.to` names nobody to send to"
    );
    assert_eq!(
        cfg.explain(Problem::NoSender),
        "`smtp.server` is set but `smtp.from` is empty; a relay rejects mail with no sender"
    );
    assert_eq!(
        cfg.explain(Problem::NotAFraction),
        "`min_answered` is a fraction of requests, 0 to 1, not a percentage: 0.75 was given"
    );
}

#[test]
fn a_misspelt_setting_within_a_section_is_named_too() {
    let cfg = parse(
        r#"{"interface":"eth0","  // a note":1,"thresholds":{"min_requsts":5,"// why":"a note"}}"#,
    )
    .expect("parses");
    assert_eq!(cfg.unknown(), vec!["thresholds.min_requsts"]);
    let quiet = parse(r#"{"interface":"eth0"}"#).expect("parses");
    assert_eq!(quiet.report_unknown(), None);
}

#[test]
fn a_named_interface_has_its_own_threshold() {
    let cfg = parse(r#"{"interface":"eth0","per_relay":{"10.100.0.1":{"idle_seconds":300}}}"#)
        .expect("parses");
    assert_eq!(
        cfg.per_relay.idle_seconds(Ipv4Addr::new(10, 100, 0, 1), 3_600),
        300,
        "a busy interface's own number"
    );
    assert_eq!(
        cfg.per_relay.idle_seconds(Ipv4Addr::new(10, 9, 9, 9), 3_600),
        3_600,
        "and anything not named falls back"
    );
    assert_eq!(cfg.per_relay.named(), vec!["10.100.0.1"]);
    assert!(PerRelay::default().named().is_empty());
}

#[test]
fn named_interfaces_are_listed_once_each_and_in_order() {
    let entries: Vec<(String, RelayThreshold)> = [
        ("10.9.0.1", 1u64),
        ("10.100.0.1", 2),
        ("10.9.0.1", 3),
        ("", 4),
    ]
        .iter()
        .map(|(gi, n)| (gi.to_string(), RelayThreshold { idle_seconds: *n }))
        .collect();
    let limits = PerRelay::from_entries(&entries);
    assert_eq!(limits.named(), vec!["", "10.100.0.1", "10.9.0.1"], "in the order of the text");
    assert_eq!(
        limits.idle_seconds(Ipv4Addr::new(10, 9, 0, 1), 9),
        3,
        "the later of two with one name"
    );
    assert_eq!(limits.idle_seconds(Ipv4Addr::new(10, 100, 0, 1), 9), 2);
    assert_eq!(limits.clone().named(), limits.named());
}

#[test]
fn the_defaults_are_these() {
    let t = Thresholds::default();
    assert_eq!(t.min_answered, "0.75");
    let least = t.least_answered().expect("a fraction");
    assert!(!Fraction { num: 3, den: 4 }.less_than(&least));
    assert!(Fraction { num: 749, den: 1_000 }.less_than(&least));
    assert_eq!((t.idle_seconds, t.resend_after), (3_600, 900));
    assert_eq!((default_window(), default_report()), (300, 300));
    assert_eq!((default_trap_port(), default_smtp_port()), (162, 25));
    assert_eq!(default_community(), "public");
    assert_eq!(default_prefix(), "[docsis]");
}

#[test]
fn the_first_file_that_exists_is_read() {
    let tried = search_paths(Some("/home/noc/"));
    assert_eq!(tried[0], "/home/noc/config/docsis_monitor.json");
    assert_eq!(pick_path(&tried, &vec![true, true]), Ok(0));
    assert_eq!(pick_path(&tried, &vec![false, true]), Ok(1));
    assert_eq!(
        pick_path(&tried, &vec![false, false]),
        Err(
            "no docsis_monitor.json found. Tried, in order: \
             /home/noc/config/docsis_monitor.json, /etc/docsis_monitor.json. Every setting \
             this program has lives in that file."
                .to_owned()
        )
    );
    assert_eq!(search_paths(None), vec!["/etc/docsis_monitor.json"]);
}

#[test]
fn a_relay_is_greeted_by_the_configured_name_or_the_hosts() {
    let mut m = parse(r#"{"interface":"eth0","smtp":{"server":"m","from":"a@b","to":["c@d"]}}"#)
        .expect("parses")
        .smtp
        .expect("a section");
    assert_eq!(m.helo_with(Some("prov-1".to_owned())), "prov-1");
    assert_eq!(m.helo_with(None), "localhost");
    let system = nix::unistd::gethostname()
        .ok()
        .and_then(|h| h.into_string().ok())
        .unwrap_or_else(|| "localhost".to_owned());
    assert_eq!(m.helo(), system);
    m.helo_name = Some("mail.example.com".to_owned());
    assert_eq!(m.helo_with(Some("prov-1".to_owned())), "mail.example.com");
    assert_eq!(m.helo(), "mail.example.com");
}
