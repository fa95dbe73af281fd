use docsis_monitor::config::Smtp;
use docsis_monitor::counters::Window;
use docsis_monitor::email::{base64, compose, data, Action, Conversation, Message};

fn smtp() -> Smtp {
    Smtp {
        server: "127.0.0.1".to_owned(),
        port: 1,
        from: "monitor@example.com".to_owned(),
        to: vec![
            "noc@example.com".to_owned(),
            "oncall@example.com".to_owned(),
        ],
        subject_prefix: "[docsis]".to_owned(),
        username: None,
        password: None,
        helo_name: None,
    }
}

fn window() -> Window {
    Window {
        requests: 0,
        replies: 0,
        tftp_reads: 0,
        tftp_sends: 0,
    }
}

/// The share of a window that was answered, as a whole number of percent.
fn percent(w: Window) -> String {
    let f = w.answered();
    format!("{:.0}", f.num as f64 / f.den as f64 * 100.0)
}

fn message() -> Message {
    Message {
        subject: "s".to_owned(),
        body: "b".to_owned(),
    }
}

#[test]
fn the_subject_carries_the_whole_finding() {
    let w = window();
    let m = compose("[docsis]", "prov-1", "eth0", "quiet", w, &percent(w), 300, "none");
    assert!(m.subject.starts_with("[docsis] "), "{}", m.subject);
    assert!(
        m.subject.contains("no DHCP arriving on prov-1"),
        "{}",
        m.subject
    );
    assert!(m.subject.contains("0 requests"), "{}", m.subject);
    assert!(m.subject.contains("300s"), "{}", m.subject);
}

#[test]
fn each_state_gets_its_own_headline() {
    let w = Window {
        requests: 90,
        replies: 2,
        ..window()
    };
    let un = compose("[d]", "prov-1", "eth0", "unanswered", w, &percent(w), 300, "10.0.0.1");
    assert!(un.subject.contains("not being answered"), "{}", un.subject);
    assert!(un.body.contains("10.0.0.1"), "the busiest is in the body");
    assert!(un.body.contains("answered    2%"), "{}", un.body);

    let ok = compose("[d]", "prov-1", "eth0", "working", w, &percent(w), 300, "10.0.0.1");
    assert!(ok.subject.contains("back to normal"), "{}", ok.subject);
}

#[test]
fn a_line_that_is_a_dot_is_stuffed() {
    let cfg = smtp();
    let m = Message {
        subject: "s".to_owned(),
        body: "one\n.\n.hidden\ntwo".to_owned(),
    };
    let d = data(&cfg, &m);
    assert!(d.contains("\r\n..\r\n"), "a lone dot is stuffed:\n{d}");
    assert!(d.contains("\r\n..hidden\r\n"), "so is a leading one");
    assert!(d.ends_with("\r\n.\r\n"), "and the real terminator is last");
}

#[test]
fn the_headers_name_every_recipient() {
    let cfg = smtp();
    let d = data(&cfg, &message());
    assert!(d.contains("From: monitor@example.com\r\n"));
    assert!(d.contains("To: noc@example.com, oncall@example.com\r\n"));
    assert!(d.contains("Subject: s\r\n"));
}

#[test]
fn base64_matches_the_examples_everybody_checks_against() {
    assert_eq!(base64(b""), "");
    assert_eq!(base64(b"f"), "Zg==");
    assert_eq!(base64(b"fo"), "Zm8=");
    assert_eq!(base64(b"foo"), "Zm9v");
    assert_eq!(base64(b"foob"), "Zm9vYg==");
    assert_eq!(base64(b"fooba"), "Zm9vYmE=");
    assert_eq!(base64(b"foobar"), "Zm9vYmFy");
    // AUTH PLAIN is NUL-separated, which is exactly the case a text-only
    // encoder gets wrong.
    assert_eq!(base64(b"\0user\0pass"), "AHVzZXIAcGFzcw==");
}

/// What a relay answers to one thing it was told.
fn relay_says(line: &str, in_data: bool, script_ok: bool) -> Vec<&'static str> {
    if in_data {
        vec![if script_ok { "250 queued\r\n" } else { "451 no\r\n" }]
    } else if line.starts_with("EHLO") {
        // Multi-line, which is what every real relay sends and the shape a
        // naive reader stops halfway through.
        vec!["250-fake\r\n", "250-SIZE 1000000\r\n", "250 HELP\r\n"]
    } else if line.starts_with("DATA") {
        vec!["354 go ahead\r\n"]
    } else {
        vec!["250 ok\r\n"]
    }
}

/// Holds a conversation with a relay that says yes to everything, or to
/// everything but the message, and hands back all that the relay heard.
fn send(cfg: &Smtp, m: &Message, script_ok: bool) -> Result<String, (String, String)> {
    let mut talk = Conversation::open(cfg, "prov-1", m);
    let mut heard = String::new();
    let mut waiting = vec!["220 fake ESMTP\r\n"];
    let mut in_data = false;
    loop {
        assert!(!waiting.is_empty(), "both sides wait after:\n{heard}");
        match talk.heard(waiting.remove(0)) {
            Action::Listen => {}
            Action::Say(line) => {
                assert!(waiting.is_empty(), "spoke before the relay finished");
                waiting = relay_says(&line, in_data, script_ok);
                in_data = line.starts_with("DATA");
                heard.push_str(&line);
            }
            Action::Finish(line) => {
                heard.push_str(&line);
                return Ok(heard);
            }
            Action::Fail(why) => return Err((why, heard)),
        }
    }
}

#[test]
fn a_message_goes_through_a_relay_in_the_right_order() {
    let cfg = smtp();
    let w = window();
    let m = compose("[docsis]", "prov-1", "eth0", "quiet", w, &percent(w), 300, "none");
    let heard = send(&cfg, &m, true).expect("the relay took it");

    let order = [
        "EHLO",
        "MAIL FROM:<monitor@example.com>",
        "RCPT TO:<noc@example.com>",
        "RCPT TO:<oncall@example.com>",
        "DATA",
        "Subject: [docsis]",
        "\r\n.\r\n",
        "QUIT",
    ];
    let mut at_pos = 0;
    for step in order {
        let found = heard[at_pos..]
            .find(step)
            .unwrap_or_else(|| panic!("{step} is missing or out of order in:\n{heard}"));
        at_pos += found + step.len();
    }
    assert!(!heard.contains("AUTH"), "no password was configured");
}

#[test]
fn a_relay_that_refuses_is_an_error_and_not_a_silent_success() {
    let (e, heard) = send(&smtp(), &message(), false).expect_err("451 is a refusal");
    assert!(e.contains("451"), "{e}");
    assert_eq!(e, "the mail server said: 451 no");
    assert!(!heard.contains("QUIT"), "nothing is said after a refusal");
}

#[test]
fn a_password_sends_auth_plain_before_the_envelope() {
    let mut cfg = smtp();
    cfg.username = Some("user".to_owned());
    cfg.password = Some("pass".to_owned());
    let heard = send(&cfg, &message(), true).expect("the relay took it");
    let auth = heard
        .find("AUTH PLAIN AHVzZXIAcGFzcw==")
        .expect("AUTH is sent");
    let mail = heard.find("MAIL FROM").expect("the envelope follows");
    assert!(auth < mail, "AUTH must come before the envelope");
}

#[test]
fn half_a_password_is_no_password() {
    let mut cfg = smtp();
    cfg.username = Some("user".to_owned());
    let heard = send(&cfg, &message(), true).expect("the relay took it");
    assert!(!heard.contains("AUTH"), "{heard}");
}

#[test]
fn the_whole_conversation_is_these_words() {
    let mut cfg = smtp();
    cfg.to.pop();
    let heard = send(&cfg, &message(), true).expect("the relay took it");
    assert_eq!(
        heard,
        "EHLO prov-1\r\nMAIL FROM:<monitor@example.com>\r\nRCPT TO:<noc@example.com>\r\n\
         DATA\r\nFrom: monitor@example.com\r\nTo: noc@example.com\r\nSubject: s\r\n\
         Content-Type: text/plain; charset=utf-8\r\n\r\nb\r\n.\r\nQUIT\r\n"
    );
}

#[test]
fn every_step_can_be_refused() {
    let cfg = smtp();
    let steps = 6;
    for refused in 0..=steps {
        let mut talk = Conversation::open(&cfg, "h", &message());
        for _ in 0..refused {
            let line = "250 ok\r\n";
            let action = match talk.heard(line) {
                // Only DATA is answered by a three.
                Action::Fail(_) => panic!("{line} was refused"),
                other => other,
            };
            if matches!(&action, Action::Say(said) if said == "DATA\r\n") {
                break;
            }
        }
        assert_eq!(
            talk.heard("554 go away  \r\n"),
            Action::Fail("the mail server said: 554 go away".to_owned())
        );
    }
}

#[test]
fn a_yes_is_not_an_invitation_to_send_the_message() {
    let mut cfg = smtp();
    cfg.to.pop();
    let mut talk = Conversation::open(&cfg, "h", &message());
    for _ in 0..4 {
        assert!(matches!(talk.heard("250 ok\r\n"), Action::Say(_)));
    }
    assert!(matches!(talk.heard("250 ok\r\n"), Action::Fail(_)));
    assert!(matches!(
        Conversation::open(&cfg, "h", &message()).heard(""),
        Action::Fail(_)
    ));
}

#[test]
fn a_body_is_cut_at_line_endings_and_not_elsewhere() {
    let cfg = smtp();
    let with = |body: &str| {
        let d = data(&cfg, &Message { subject: "s".to_owned(), body: body.to_owned() });
        d.split_once("\r\n\r\n").expect("a blank line ends the headers").1.to_owned()
    };
    assert_eq!(with(""), ".\r\n");
    assert_eq!(with("\n"), "\r\n.\r\n");
    assert_eq!(with("a\n"), "a\r\n.\r\n");
    assert_eq!(with("a\r\nb"), "a\r\nb\r\n.\r\n");
    assert_eq!(with("a\rb\r"), "a\rb\r\r\n.\r\n");
    assert_eq!(with("a\n\n.b"), "a\r\n\r\n..b\r\n.\r\n");
}

#[test]
fn the_whole_alert_is_these_words() {
    let w = Window { requests: 90, replies: 2, tftp_reads: 7, tftp_sends: 6 };
    let m = compose("[d]", "prov-1", "eth0", "unanswered", w, &percent(w), 300, "10.0.0.1");
    assert_eq!(
        m.subject,
        "[d] DHCP not being answered on prov-1 \u{2014} 90 requests, 2 replies in 300s"
    );
    assert_eq!(
        m.body,
        "DHCP not being answered on prov-1\n\nhost        prov-1\ninterface   eth0\n\
         state       unanswered\nwindow      300 seconds\n\nrequests    90\nreplies     2\n\
         answered    2%\ntftp reads  7\nbusiest     10.0.0.1\n\n\
         Counted on the wire by docsis_monitor. Requests are what reached this\n\
         interface; a relay that has stopped relaying leaves nothing in the\n\
         provisioning server's own logs, because nothing reached it to be logged.\n"
    );
}
