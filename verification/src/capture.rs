//! Watching: what is done with each frame, when something is said, and what.
//!
//! The caller owns the wire and the clock. It hands over what was read and
//! when, and prints and sends what comes back.

use vstd::prelude::*;

use crate::adapt::{as_config, suggest, Suggestion};
use crate::addr::{IpAddr, Ipv4Addr, Ipv6Addr};
use crate::alarm::{judge_relay, worst, RelayVerdict, Repeats, State};
use crate::config::{Config, Smtp, Target};
use crate::counters::{Counters, Dest, Flow, Window};
use crate::host;
use crate::packet::{Kind, Seen};
use crate::ratio::Share;
use crate::relays::{Relay, Relays};
use crate::snmp::{Trap, Value};
use crate::text::{push_dec, push_dec_left, push_joined, push_left, push_right, same};

verus! {

/// How many flows a report lists.
pub const SHOWN_FLOWS: usize = 12;

/// How long a read waits before coming back empty, in milliseconds. It has to
/// come back: a plant that has gone silent sends no frames at all, and that is
/// when there is something to say.
pub const READ_TIMEOUT_MS: u64 = 500;

// Choosing an interface.

/// Finds the configured interface among the ones this host has. The error
/// lists what there is.
pub fn find(want: &str, names: &Vec<String>) -> (r: Result<usize, String>)
    ensures
        match r {
            Ok(i) => i < names@.len() && names@[i as int]@ == want@ && forall|j: int|
                0 <= j < i ==> (#[trigger] names@[j])@ != want@,
            Err(why) => (forall|j: int| 0 <= j < names@.len() ==> (#[trigger] names@[j])@ != want@)
                && why@ == "this host has no interface called "@ + want@ + ". It has: "@
                + crate::text::joined(crate::text::texts(names@), ", "@),
        },
{
    let mut i: usize = 0;
    while i < names.len()
        invariant
            i <= names@.len(),
            forall|j: int| 0 <= j < i ==> (#[trigger] names@[j])@ != want@,
        decreases names@.len() - i,
    {
        if same(names[i].as_str(), want) {
            return Ok(i);
        }
        i = i + 1;
    }
    let mut why = "this host has no interface called ".to_owned();
    why.append(want);
    why.append(". It has: ");
    push_joined(&mut why, names, ", ");
    Err(why)
}

/// What is said of the interface that was found, with the addresses that it
/// has of its own.
pub fn found(name: &str, addresses: &Vec<String>) -> (out: String)
    ensures
        out@ == "watching "@ + name@ + " ("@ + (if addresses@.len() == 0 {
            "no address of its own"@
        } else {
            crate::text::joined(crate::text::texts(addresses@), ", "@)
        }) + ")"@,
{
    let mut out = "watching ".to_owned();
    out.append(name);
    out.append(" (");
    if addresses.len() == 0 {
        out.append("no address of its own");
    } else {
        push_joined(&mut out, addresses, ", ");
    }
    out.append(")");
    out
}

/// What is said of an interface that does not carry Ethernet.
pub fn not_ethernet(name: &str) -> (out: String)
    ensures
        out@ == name@ + " is not an Ethernet interface, and this reads Ethernet frames"@,
{
    let mut out = name.to_owned();
    out.append(" is not an Ethernet interface, and this reads Ethernet frames");
    out
}

/// What is said where capturing is not allowed, which is the failure everybody
/// meets first.
pub fn not_allowed(name: &str) -> (out: String)
    ensures
        out@ == "not allowed to capture on "@ + name@
            + ". A capture socket belongs to root or to a binary with CAP_NET_RAW: either run this as root, or grant it once with `setcap cap_net_raw,cap_net_admin=eip <path to docsis_monitor>`."@,
{
    let mut out = "not allowed to capture on ".to_owned();
    out.append(name);
    out.append(
        ". A capture socket belongs to root or to a binary with CAP_NET_RAW: either run this as root, or grant it once with `setcap cap_net_raw,cap_net_admin=eip <path to docsis_monitor>`.",
    );
    out
}

// Starting and stopping.

/// The larger of two.
pub open spec fn at_least(n: u64, least: u64) -> u64 {
    if n >= least {
        n
    } else {
        least
    }
}

/// Who is told, in words.
pub open spec fn told_text(cfg: Config) -> Seq<char> {
    let n = cfg.snmp.targets@.len();
    match cfg.mail_relay() {
        None => if n == 0 {
            "no trap targets and no mail relay: the log only"@
        } else {
            crate::text::dec(n) + " trap target(s)"@
        },
        Some(m) => if n == 0 {
            "mail to "@ + crate::text::joined(crate::text::texts(m.to@), ", "@)
        } else {
            crate::text::dec(n) + " trap target(s) and mail to "@ + crate::text::joined(
                crate::text::texts(m.to@),
                ", "@,
            )
        },
    }
}

/// What is said at the start of a run, when thresholds are configured for
/// these names.
pub open spec fn opening_lines(
    cfg: Config,
    names: Seq<Seq<char>>,
    adaptation: Option<u64>,
) -> Seq<Seq<char>> {
    match adaptation {
        Some(mins) => seq![
            "ADAPTATION: watching "@ + cfg.interface@ + " for "@ + crate::text::dec(mins as nat)
                + " minute(s) to work out what idle means on each CMTS interface. No alarms will be raised."@,
        ],
        None => {
            let first = "watching "@ + cfg.interface@ + ": judging on the last "@
                + crate::text::dec(cfg.window as nat) + "s, reporting every "@ + crate::text::dec(
                at_least(cfg.report_every, 1) as nat,
            ) + "s, "@ + told_text(cfg);
            if names.len() > 0 {
                seq![
                    first,
                    "  per-interface thresholds for: "@ + crate::text::joined(names, ", "@),
                ]
            } else {
                seq![first]
            }
        },
    }
}

fn push_told(out: &mut String, cfg: &Config)
    ensures
        final(out)@ == old(out)@ + told_text(*cfg),
{
    let n: usize = cfg.snmp.targets.len();
    match cfg.mail() {
        None => if n == 0 {
            out.append("no trap targets and no mail relay: the log only");
        } else {
            push_dec(out, n as u64);
            out.append(" trap target(s)");
        },
        Some(m) => {
            if n == 0 {
                out.append("mail to ");
            } else {
                push_dec(out, n as u64);
                out.append(" trap target(s) and mail to ");
            }
            push_joined(out, &m.to, ", ");
        },
    }
    assert(out@ =~= old(out)@ + told_text(*cfg));
}

/// What is said at the start of a run.
pub fn opening(cfg: &Config, adaptation: Option<u64>) -> (out: Vec<String>)
    ensures
        exists|names: Seq<Seq<char>>| #[trigger]
            crate::config::lists_names(names, cfg.per_relay@) && crate::text::texts(out@)
                == opening_lines(*cfg, names, adaptation),
{
    let named = cfg.per_relay.named();
    let ghost names = crate::text::texts(named@);
    let mut out: Vec<String> = Vec::new();
    match adaptation {
        Some(mins) => {
            let mut line = "ADAPTATION: watching ".to_owned();
            line.append(cfg.interface.as_str());
            line.append(" for ");
            push_dec(&mut line, mins);
            line.append(
                " minute(s) to work out what idle means on each CMTS interface. No alarms will be raised.",
            );
            out.push(line);
        },
        None => {
            let mut line = "watching ".to_owned();
            line.append(cfg.interface.as_str());
            line.append(": judging on the last ");
            push_dec(&mut line, cfg.window);
            line.append("s, reporting every ");
            let every: u64 = if cfg.report_every >= 1 {
                cfg.report_every
            } else {
                1
            };
            push_dec(&mut line, every);
            line.append("s, ");
            push_told(&mut line, cfg);
            out.push(line);
            // A threshold written for an address that does not relay will
            // never fire. That cannot be told before traffic has been seen, so
            // this only lists what was asked for.
            if named.len() > 0 {
                let mut line = "  per-interface thresholds for: ".to_owned();
                push_joined(&mut line, &named, ", ");
                out.push(line);
            }
        },
    }
    assert(crate::text::texts(out@) =~= opening_lines(*cfg, names, adaptation));
    out
}

/// One line while an adaptation run is under way, so it is visibly working.
pub open spec fn progress_text(w: Window) -> Seq<char> {
    "  still watching: "@ + crate::text::dec(w.requests as nat) + " requests, "@
        + crate::text::dec(w.replies as nat) + " replies, "@ + crate::text::dec(
        w.tftp_reads as nat,
    ) + " tftp requests in the last window"@
}

/// The line that ends a run.
pub open spec fn closing_text(total: Window) -> Seq<char> {
    "stopping: "@ + crate::text::dec(total.requests as nat) + " requests, "@ + crate::text::dec(
        total.replies as nat,
    ) + " replies, "@ + crate::text::dec(total.tftp_reads as nat) + " tftp requests seen in all"@
}

fn progress_line(w: Window) -> (out: String)
    ensures
        out@ == progress_text(w),
{
    let mut out = "  still watching: ".to_owned();
    push_dec(&mut out, w.requests);
    out.append(" requests, ");
    push_dec(&mut out, w.replies);
    out.append(" replies, ");
    push_dec(&mut out, w.tftp_reads);
    out.append(" tftp requests in the last window");
    out
}

fn closing_line(total: Window) -> (out: String)
    ensures
        out@ == closing_text(total),
{
    let mut out = "stopping: ".to_owned();
    push_dec(&mut out, total.requests);
    out.append(" requests, ");
    push_dec(&mut out, total.replies);
    out.append(" replies, ");
    push_dec(&mut out, total.tftp_reads);
    out.append(" tftp requests seen in all");
    out
}

// What an adaptation run is for.

/// One suggestion and its evidence.
pub open spec fn suggestion_text(s: Suggestion) -> Seq<char> {
    match s.idle_seconds {
        Some(n) => "  "@ + crate::text::pad_right(s.gi.dotted(), 16) + " idle_seconds "@
            + crate::text::pad_right(crate::text::dec(n as nat), 7) + " "@ + s.because@,
        None => "  "@ + crate::text::pad_right(s.gi.dotted(), 16) + " no suggestion — "@
            + s.because@,
    }
}

/// Every suggestion, a line each.
pub open spec fn suggestion_texts(all: Seq<Suggestion>) -> Seq<Seq<char>> {
    Seq::new(all.len(), |i: int| suggestion_text(all[i]))
}

/// What an adaptation run says at its end: the numbers, and a block to paste.
pub open spec fn suggestions_text(
    all: Seq<Suggestion>,
    unrelayed: Relay,
    watched_for: u64,
) -> Seq<Seq<char>> {
    let head = seq![
        ""@,
        "─── what this plant looks like after "@ + crate::text::dec((watched_for / 60) as nat)
            + " ───"@,
    ];
    if all.len() == 0 {
        head + seq![
            "  No CMTS relayed anything at all. Either nothing is being"@,
            "  provisioned, or this is not the interface the relays reach the"@,
            "  server on."@,
        ]
    } else {
        head + suggestion_texts(all) + seq![
            "  TFTP saw "@ + crate::text::dec(unrelayed.tftp_requests as nat) + " requests and "@
                + crate::text::dec(unrelayed.tftp_sends as nat)
                + " sends. It is not alarmed on and has no"@,
            "  threshold: the equipment behind a modem never touches it, so a plant"@,
            "  fetches a config when a modem boots and not again."@,
            ""@,
            "This watched one window of one day. A plant is busiest in the evening"@,
            "and quietest at four in the morning; neither is in here unless you"@,
            "ran it then."@,
            ""@,
            "Paste into the configuration, and read the numbers above first:"@,
            crate::adapt::config_block(all),
        ]
    }
}

fn suggestion_line(s: &Suggestion) -> (out: String)
    ensures
        out@ == suggestion_text(*s),
{
    let mut out = "  ".to_owned();
    let gi = s.gi.text();
    push_right(&mut out, gi.as_str(), 16);
    match s.idle_seconds {
        Some(n) => {
            out.append(" idle_seconds ");
            let n = crate::text::decimal(n);
            push_right(&mut out, n.as_str(), 7);
            out.append(" ");
        },
        None => {
            out.append(" no suggestion — ");
        },
    }
    out.append(s.because.as_str());
    out
}

/// Appends a line that is known beforehand.
fn push_line(out: &mut Vec<String>, line: &str)
    ensures
        crate::text::texts(final(out)@) == crate::text::texts(old(out)@).push(line@),
{
    out.push(line.to_owned());
    assert(crate::text::texts(out@) =~= crate::text::texts(old(out)@).push(line@));
}

/// What an adaptation run says at its end.
pub fn suggestion_lines(relays: &Relays, watched_for: u64) -> (out: Vec<String>)
    ensures
        exists|all: Seq<Suggestion>| #[trigger]
            crate::adapt::suggests(all, relays.rows(), watched_for) && crate::text::texts(out@)
                == suggestions_text(all, relays.direct(), watched_for),
{
    let all = suggest(relays, watched_for);
    let u = relays.unrelayed();
    let out = lines_for_suggestions(&all, u, watched_for);
    assert(crate::adapt::suggests(all@, relays.rows(), watched_for));
    out
}

/// The same, of suggestions that have been worked out.
pub fn lines_for_suggestions(all: &Vec<Suggestion>, unrelayed: &Relay, watched_for: u64) -> (out:
    Vec<String>)
    ensures
        crate::text::texts(out@) == suggestions_text(all@, *unrelayed, watched_for),
{
    let mut out: Vec<String> = Vec::new();
    push_line(&mut out, "");
    let mut line = "─── what this plant looks like after ".to_owned();
    push_dec(&mut line, watched_for / 60);
    line.append(" ───");
    push_line(&mut out, line.as_str());
    let ghost head = crate::text::texts(out@);
    if all.len() == 0 {
        push_line(&mut out, "  No CMTS relayed anything at all. Either nothing is being");
        push_line(&mut out, "  provisioned, or this is not the interface the relays reach the");
        push_line(&mut out, "  server on.");
        assert(crate::text::texts(out@) =~= suggestions_text(all@, *unrelayed, watched_for));
        return out;
    }
    let mut i: usize = 0;
    while i < all.len()
        invariant
            i <= all@.len(),
            crate::text::texts(out@) == head + suggestion_texts(all@.take(i as int)),
        decreases all@.len() - i,
    {
        let line = suggestion_line(&all[i]);
        push_line(&mut out, line.as_str());
        assert(crate::text::texts(out@) =~= head + suggestion_texts(all@.take(i + 1)));
        i = i + 1;
    }
    assert(all@.take(all@.len() as int) =~= all@);
    let mut line = "  TFTP saw ".to_owned();
    push_dec(&mut line, unrelayed.tftp_requests);
    line.append(" requests and ");
    push_dec(&mut line, unrelayed.tftp_sends);
    line.append(" sends. It is not alarmed on and has no");
    push_line(&mut out, line.as_str());
    push_line(
        &mut out,
        "  threshold: the equipment behind a modem never touches it, so a plant",
    );
    push_line(&mut out, "  fetches a config when a modem boots and not again.");
    push_line(&mut out, "");
    push_line(
        &mut out,
        "This watched one window of one day. A plant is busiest in the evening",
    );
    push_line(&mut out, "and quietest at four in the morning; neither is in here unless you");
    push_line(&mut out, "ran it then.");
    push_line(&mut out, "");
    push_line(&mut out, "Paste into the configuration, and read the numbers above first:");
    let block = as_config(all.as_slice());
    push_line(&mut out, block.as_str());
    assert(crate::text::texts(out@) =~= suggestions_text(all@, *unrelayed, watched_for));
    out
}

// A report.

/// The plant's own line: everything over the window, and the verdict.
/// `percent` is how many of a hundred requests were answered.
pub open spec fn window_text(
    window: u64,
    w: Window,
    percent: Seq<char>,
    state: State,
) -> Seq<char> {
    crate::text::dec(window as nat) + "s window: "@ + crate::text::dec(w.requests as nat)
        + " requests, "@ + crate::text::dec(w.replies as nat) + " replies ("@ + percent
        + "% answered), "@ + crate::text::dec(w.tftp_reads as nat) + " tftp requests, "@
        + crate::text::dec(w.tftp_sends as nat) + " tftp sends — "@ + crate::alarm::word_of(state)
}

/// The plant's own line: everything over the window, and the verdict.
pub fn window_line(cfg: &Config, w: Window, percent: &str, state: &State) -> (out: String)
    ensures
        out@ == window_text(cfg.window, w, percent@, *state),
{
    let mut out = crate::text::decimal(cfg.window);
    out.append("s window: ");
    push_dec(&mut out, w.requests);
    out.append(" requests, ");
    push_dec(&mut out, w.replies);
    out.append(" replies (");
    out.append(percent);
    out.append("% answered), ");
    push_dec(&mut out, w.tftp_reads);
    out.append(" tftp requests, ");
    push_dec(&mut out, w.tftp_sends);
    out.append(" tftp sends — ");
    out.append(state.word());
    out
}

/// The head of a report: a blank line, the moment it was taken, and then the
/// plant's own line.
pub open spec fn heading_text(
    stamp: Seq<char>,
    window: u64,
    w: Window,
    percent: Seq<char>,
    state: State,
) -> Seq<char> {
    "\n"@ + stamp + "\n"@ + window_text(window, w, percent, state)
}

/// The head of a report under a given stamp.
pub fn heading_under(stamp: &str, cfg: &Config, w: Window, percent: &str, state: &State) -> (out:
    String)
    ensures
        out@ == heading_text(stamp@, cfg.window, w, percent@, *state),
{
    let mut out = "\n".to_owned();
    out.append(stamp);
    out.append("\n");
    let line = window_line(cfg, w, percent, state);
    out.append(line.as_str());
    out
}

/// The head of one report, stamped with the local time.
pub fn heading(cfg: &Config, w: Window, percent: &str, state: &State, at: u64) -> (out: String)
    ensures
        exists|stamp: Seq<char>| #[trigger]
            crate::clock::is_stamp(at, stamp) && out@ == heading_text(
                stamp,
                cfg.window,
                w,
                percent@,
                *state,
            ),
{
    let stamp = crate::clock::local_stamp(at);
    assert(crate::clock::is_stamp(at, stamp@));
    heading_under(stamp.as_str(), cfg, w, percent, state)
}

/// How a row's requests were answered, in words.
pub open spec fn answers_text(r: Relay) -> Seq<char> {
    if r.answered > 0 {
        crate::text::dec((r.answer_ms_total / r.answered) as nat) + "ms mean, "@
            + crate::text::dec(r.answer_ms_worst as nat) + "ms worst"@
    } else {
        "nothing answered"@
    }
}

/// How long a row has been silent, in words.
pub open spec fn idle_text(r: Relay, at: u64) -> Seq<char> {
    match r.last_request {
        Some(last) => crate::text::dec(crate::relays::since(at, last) as nat) + "s"@,
        None => "never"@,
    }
}

/// One line for a CMTS interface: what it did, whether it was answered, and
/// how fast.
pub open spec fn relay_text(gi: Ipv4Addr, r: Relay, v: RelayVerdict, at: u64) -> Seq<char> {
    "    "@ + crate::text::pad_right(gi.dotted(), 16) + " "@ + crate::text::pad_left(
        crate::text::dec(r.requests as nat),
        7,
    ) + " req "@ + crate::text::pad_left(crate::text::dec(r.replies as nat), 7) + " rep  "@
        + crate::text::pad_left(crate::text::dec(r.answered as nat), 6) + " answered, "@
        + answers_text(r) + "  idle "@ + idle_text(r, at) + " of "@ + crate::text::dec(
        v.idle_allowed as nat,
    ) + "s — "@ + crate::alarm::word_of(v.state)
}

/// The lines of the interfaces that have a verdict.
pub open spec fn relay_texts(
    rows: Seq<(Ipv4Addr, &Relay)>,
    verdicts: Seq<RelayVerdict>,
    at: u64,
) -> Seq<Seq<char>> {
    Seq::new(
        (if rows.len() <= verdicts.len() {
            rows.len()
        } else {
            verdicts.len()
        }),
        |i: int| relay_text(rows[i].0, *rows[i].1, verdicts[i], at),
    )
}

/// The line of everything with no gi-address.
pub open spec fn unrelayed_text(u: Relay) -> Seq<char> {
    "    "@ + crate::text::pad_right("(no gi-address)"@, 16) + " "@ + crate::text::pad_left(
        crate::text::dec(u.requests as nat),
        7,
    ) + " req "@ + crate::text::pad_left(crate::text::dec(u.replies as nat), 7) + " rep  "@
        + crate::text::dec(u.tftp_requests as nat) + " tftp requests, "@ + crate::text::dec(
        u.tftp_sends as nat,
    ) + " tftp sends"@
}

/// Everything a report says about the interfaces: a line for each, how many
/// requests still wait when any do, and what came with no gi-address when
/// anything did.
pub open spec fn per_relay_text(
    rows: Seq<(Ipv4Addr, &Relay)>,
    verdicts: Seq<RelayVerdict>,
    waiting: nat,
    u: Relay,
    at: u64,
) -> Seq<Seq<char>> {
    relay_texts(rows, verdicts, at) + (if waiting > 0 {
        seq!["    "@ + crate::text::dec(waiting) + " request(s) still waiting for an answer"@]
    } else {
        Seq::<Seq<char>>::empty()
    }) + (if u.packets() > 0 {
        seq![unrelayed_text(u)]
    } else {
        Seq::<Seq<char>>::empty()
    })
}

fn push_answers(out: &mut String, r: &Relay)
    ensures
        final(out)@ == old(out)@ + answers_text(*r),
{
    match r.answer_ms_mean() {
        Some(mean) => {
            push_dec(out, mean);
            out.append("ms mean, ");
            push_dec(out, r.answer_ms_worst);
            out.append("ms worst");
        },
        None => {
            out.append("nothing answered");
        },
    }
    assert(out@ =~= old(out)@ + answers_text(*r));
}

fn push_idle(out: &mut String, r: &Relay, at: u64)
    ensures
        final(out)@ == old(out)@ + idle_text(*r, at),
{
    match r.idle_for(at) {
        Some(s) => {
            push_dec(out, s);
            out.append("s");
        },
        None => {
            out.append("never");
        },
    }
    assert(out@ =~= old(out)@ + idle_text(*r, at));
}

fn relay_line(gi: Ipv4Addr, r: &Relay, v: &RelayVerdict, at: u64) -> (out: String)
    ensures
        out@ == relay_text(gi, *r, *v, at),
{
    let mut out = "    ".to_owned();
    let name = gi.text();
    push_right(&mut out, name.as_str(), 16);
    out.append(" ");
    push_dec_left(&mut out, r.requests, 7);
    out.append(" req ");
    push_dec_left(&mut out, r.replies, 7);
    out.append(" rep  ");
    push_dec_left(&mut out, r.answered, 6);
    out.append(" answered, ");
    push_answers(&mut out, r);
    out.append("  idle ");
    push_idle(&mut out, r, at);
    out.append(" of ");
    push_dec(&mut out, v.idle_allowed);
    out.append("s — ");
    out.append(v.state.word());
    out
}

fn unrelayed_line(u: &Relay) -> (out: String)
    ensures
        out@ == unrelayed_text(*u),
{
    let mut out = "    ".to_owned();
    push_right(&mut out, "(no gi-address)", 16);
    out.append(" ");
    push_dec_left(&mut out, u.requests, 7);
    out.append(" req ");
    push_dec_left(&mut out, u.replies, 7);
    out.append(" rep  ");
    push_dec(&mut out, u.tftp_requests);
    out.append(" tftp requests, ");
    push_dec(&mut out, u.tftp_sends);
    out.append(" tftp sends");
    out
}

/// One line per CMTS interface, and what belongs to none.
pub fn per_relay_lines(relays: &Relays, verdicts: &[RelayVerdict], at: u64) -> (out: Vec<String>)
    ensures
        exists|rows: Seq<(Ipv4Addr, &Relay)>| #[trigger]
            crate::relays::lists_rows(rows, relays.rows()) && crate::text::texts(out@)
                == per_relay_text(rows, verdicts@, relays.table().len(), relays.direct(), at),
{
    let rows = relays.each();
    let mut out: Vec<String> = Vec::new();
    let n: usize = if rows.len() <= verdicts.len() {
        rows.len()
    } else {
        verdicts.len()
    };
    let ghost all = relay_texts(rows@, verdicts@, at);
    let mut i: usize = 0;
    assert(crate::text::texts(out@) =~= all.take(0));
    while i < n
        invariant
            i <= n <= rows@.len(),
            n <= verdicts@.len(),
            all == relay_texts(rows@, verdicts@, at),
            all.len() == n,
            crate::text::texts(out@) == all.take(i as int),
        decreases n - i,
    {
        let (gi, r) = rows[i];
        let line = relay_line(gi, r, &verdicts[i], at);
        push_line(&mut out, line.as_str());
        assert(crate::text::texts(out@) =~= all.take(i + 1));
        i = i + 1;
    }
    assert(all.take(n as int) =~= all);
    // Requests with no answer yet. A number that climbs across reports is a
    // server that has stopped answering.
    let waiting: usize = relays.waiting();
    if waiting > 0 {
        let mut line = "    ".to_owned();
        push_dec(&mut line, waiting as u64);
        line.append(" request(s) still waiting for an answer");
        push_line(&mut out, line.as_str());
    }
    let u = relays.unrelayed();
    if u.requests > 0 || u.replies > 0 || u.tftp_requests > 0 || u.tftp_sends > 0 {
        let line = unrelayed_line(u);
        push_line(&mut out, line.as_str());
    }
    proof {
        assert(crate::relays::lists_rows(rows@, relays.rows()));
        assert(crate::text::texts(out@) =~= per_relay_text(
            rows@,
            verdicts@,
            relays.table().len(),
            relays.direct(),
            at,
        ));
    }
    out
}

/// How the addresses of a flow are written that are `IPv6`. What stands for an
/// `IPv4` address is not looked at: its dotted form is known.
#[derive(Clone, Debug)]
pub struct Ends {
    pub src: String,
    pub dst: String,
}

/// An address as text: the dotted form of an `IPv4` address, and `v6` for any
/// other.
pub open spec fn end_text(address: IpAddr, v6: Seq<char>) -> Seq<char> {
    match address {
        IpAddr::V4(a) => a.dotted(),
        IpAddr::V6(_) => v6,
    }
}

/// One end of a flow.
pub fn end_of(address: IpAddr, v6: &str) -> (out: String)
    ensures
        out@ == end_text(address, v6@),
{
    match address {
        IpAddr::V4(a) => a.text(),
        IpAddr::V6(_) => v6.to_owned(),
    }
}

/// The gi-address of a flow, in words.
pub open spec fn gi_text(gi: Option<Ipv4Addr>) -> Seq<char> {
    match gi {
        Some(g) => " gi "@ + g.dotted(),
        None => Seq::empty(),
    }
}

/// One line for a conversation.
pub open spec fn flow_text(flow: Flow, ends: Ends, d: Dest) -> Seq<char> {
    "    "@ + crate::text::pad_left(end_text(flow.src, ends.src@), 15) + " -> "@
        + crate::text::pad_right(end_text(flow.dst, ends.dst@), 15) + crate::text::pad_right(
        gi_text(flow.gi),
        18,
    ) + " "@ + crate::text::pad_left(
        crate::text::dec(d.counts@[0] as nat),
        6,
    ) + " req "@ + crate::text::pad_left(crate::text::dec(d.counts@[1] as nat), 6) + " rep "@
        + crate::text::pad_left(crate::text::dec(d.counts@[2] as nat), 6) + " tftp-req "@
        + crate::text::pad_left(crate::text::dec(d.counts@[3] as nat), 6) + " tftp-send"@
}

/// How many conversations are listed, of so many.
pub open spec fn shown_of(flows: nat) -> nat {
    if flows <= SHOWN_FLOWS {
        flows
    } else {
        SHOWN_FLOWS as nat
    }
}

/// The busiest conversations, and how many were left out.
pub open spec fn flows_text(flows: Seq<(Flow, Dest)>, ends: Seq<Ends>) -> Seq<Seq<char>> {
    let lines = Seq::new(
        shown_of(flows.len()),
        |i: int| flow_text(flows[i].0, ends[i], flows[i].1),
    );
    if flows.len() > SHOWN_FLOWS {
        lines.push(
            "    ... and "@ + crate::text::dec((flows.len() - SHOWN_FLOWS) as nat) + " more"@,
        )
    } else {
        lines
    }
}

fn flow_line(flow: &Flow, ends: &Ends, d: &Dest) -> (out: String)
    ensures
        out@ == flow_text(*flow, *ends, *d),
{
    let src = end_of(flow.src, ends.src.as_str());
    let dst = end_of(flow.dst, ends.dst.as_str());
    let mut out = "    ".to_owned();
    push_left(&mut out, src.as_str(), 15);
    out.append(" -> ");
    push_right(&mut out, dst.as_str(), 15);
    let mut through = String::new();
    if let Some(g) = flow.gi {
        through.append(" gi ");
        g.push_to(&mut through);
    }
    assert(through@ =~= gi_text(flow.gi));
    push_right(&mut out, through.as_str(), 18);
    out.append(" ");
    push_dec_left(&mut out, d.counts[0], 6);
    out.append(" req ");
    push_dec_left(&mut out, d.counts[1], 6);
    out.append(" rep ");
    push_dec_left(&mut out, d.counts[2], 6);
    out.append(" tftp-req ");
    push_dec_left(&mut out, d.counts[3], 6);
    out.append(" tftp-send");
    out
}

/// Both ends of the busiest conversations. Only those that are listed need
/// their ends.
pub fn flow_lines(flows: &Vec<(Flow, Dest)>, ends: &Vec<Ends>) -> (out: Vec<String>)
    requires
        shown_of(flows@.len()) <= ends@.len(),
    ensures
        crate::text::texts(out@) == flows_text(flows@, ends@),
{
    let mut out: Vec<String> = Vec::new();
    let shown: usize = if flows.len() <= SHOWN_FLOWS {
        flows.len()
    } else {
        SHOWN_FLOWS
    };
    let ghost lines = Seq::new(
        shown as nat,
        |i: int| flow_text(flows@[i].0, ends@[i], flows@[i].1),
    );
    assert(crate::text::texts(out@) =~= lines.take(0));
    let mut i: usize = 0;
    while i < shown
        invariant
            i <= shown <= flows@.len(),
            shown <= ends@.len(),
            lines == Seq::new(
                shown as nat,
                |i: int| flow_text(flows@[i].0, ends@[i], flows@[i].1),
            ),
            crate::text::texts(out@) == lines.take(i as int),
        decreases shown - i,
    {
        let (flow, d) = flows[i];
        let line = flow_line(&flow, &ends[i], &d);
        push_line(&mut out, line.as_str());
        assert(crate::text::texts(out@) =~= lines.take(i + 1));
        i = i + 1;
    }
    assert(lines.take(shown as int) =~= lines);
    if flows.len() > SHOWN_FLOWS {
        let mut line = "    ... and ".to_owned();
        push_dec(&mut line, (flows.len() - SHOWN_FLOWS) as u64);
        line.append(" more");
        push_line(&mut out, line.as_str());
    }
    assert(crate::text::texts(out@) =~= flows_text(flows@, ends@));
    out
}

/// Where to go and look: the source and gi-address of the busiest flow, both
/// its ends where it has no gi-address, and nothing where there is no flow.
pub open spec fn busiest_text(flows: Seq<(Flow, Dest)>, ends: Seq<Ends>) -> Seq<char> {
    if flows.len() == 0 {
        "none"@
    } else {
        let flow = flows[0].0;
        let src = end_text(flow.src, ends[0].src@);
        match flow.gi {
            Some(g) => src + " via "@ + g.dotted(),
            None => src + " -> "@ + end_text(flow.dst, ends[0].dst@),
        }
    }
}

/// The flow carrying the most traffic in the window, for the alert. Only that
/// one needs its ends.
pub fn busiest(flows: &Vec<(Flow, Dest)>, ends: &Vec<Ends>) -> (out: String)
    requires
        flows@.len() > 0 ==> ends@.len() > 0,
    ensures
        out@ == busiest_text(flows@, ends@),
{
    if flows.len() == 0 {
        return "none".to_owned();
    }
    let (flow, _) = flows[0];
    let mut out = end_of(flow.src, ends[0].src.as_str());
    match flow.gi {
        Some(g) => {
            out.append(" via ");
            g.push_to(&mut out);
        },
        None => {
            out.append(" -> ");
            out.append(end_of(flow.dst, ends[0].dst.as_str()).as_str());
        },
    }
    out
}

// Telling somebody.

/// Whether there is a receiver to send a trap to.
pub open spec fn has_targets(cfg: Config) -> bool {
    cfg.snmp.targets@.len() > 0
}

/// Whether there is a relay to send mail through.
pub open spec fn has_relay(cfg: Config) -> bool {
    cfg.mail_relay() is Some
}

/// Whether there is anywhere to send a state to.
pub open spec fn has_somewhere(cfg: Config) -> bool {
    has_targets(cfg) || has_relay(cfg)
}

/// Whether asking to tell a state took a memory of what was said from one
/// state to another: it is told when there is somewhere to send it and it is
/// due, or what was told last did not arrive; and it is remembered exactly when
/// it is told.
pub open spec fn asked_to_tell(
    before: Repeats,
    after: Repeats,
    somewhere: bool,
    state: State,
    at: u64,
    told: bool,
) -> bool {
    &&& told == (somewhere && before.tells(state, at))
    &&& after.interval() == before.interval()
    &&& after.said() == (if told {
        Some((state, at))
    } else {
        before.said()
    })
    &&& after.owed() == (before.owed() && !somewhere)
}

/// Whether a state is told over one channel. The memory is only consulted when
/// there is somewhere to send, so that it is not used up while there is not.
fn tell_over(somewhere: bool, repeats: &mut Repeats, state: &State, at: u64) -> (told: bool)
    ensures
        asked_to_tell(*old(repeats), *final(repeats), somewhere, *state, at, told),
{
    somewhere && repeats.should_send(state, at)
}

/// Whether anybody is told about this state, and now, where one memory serves
/// for every channel.
///
/// The repeat gate is only consulted when there is somewhere to send, so that
/// a run with nothing configured does not use up the memory of what was said.
pub fn should_tell(cfg: &Config, repeats: &mut Repeats, state: &State, at: u64) -> (r: bool)
    ensures
        asked_to_tell(*old(repeats), *final(repeats), has_somewhere(*cfg), *state, at, r),
{
    let somewhere: bool = cfg.snmp.targets.len() > 0 || cfg.mail().is_some();
    tell_over(somewhere, repeats, state, at)
}

/// What the traps call this host, when the system gives its name so.
pub fn host_name_with(cfg: &Config, system: Option<String>) -> (r: String)
    ensures
        r@ == host::name_among(
            host::text_of(cfg.snmp.sysname),
            host::text_of(system),
            "unknown"@,
        ),
{
    host::pick_name(&cfg.snmp.sysname, system, "unknown")
}

/// What the traps call this host: the configured name, or the system's own.
pub fn host_name(cfg: &Config) -> (r: String)
    ensures
        cfg.snmp.sysname matches Some(n) ==> r@ == n@,
{
    host::name_or(&cfg.snmp.sysname, "unknown")
}

/// The number of the trap for a state: quiet, unanswered, recovered.
pub open spec fn trap_number(state: State) -> u64 {
    match state {
        State::Working => 3,
        State::Quiet => 1,
        State::Unanswered => 2,
    }
}

/// Whether a binding is a field of this program's arc with a text in it.
pub open spec fn says_text(b: (Vec<u64>, Value), n: u64, s: Seq<char>) -> bool {
    &&& b.0@ == crate::snmp::enterprise().push(1).push(n)
    &&& b.1 matches Value::Str(t) && t@ == s
}

/// Whether a binding is a field of this program's arc with a count in it.
pub open spec fn says_count(b: (Vec<u64>, Value), n: u64, c: u64) -> bool {
    &&& b.0@ == crate::snmp::enterprise().push(1).push(n)
    &&& b.1 matches Value::Count(t) && t == c
}

/// Whether a trap tells of a state: its number, how long this has run, and the
/// fields that every alert carries.
pub open spec fn tells(
    t: Trap,
    host: Seq<char>,
    cfg: Config,
    state: State,
    w: Window,
    at: u64,
    began: u64,
    busiest: Seq<char>,
) -> bool {
    &&& t.uptime_ticks == (if at >= began {
        (at - began) * 100
    } else {
        0
    })
    &&& t.which == trap_number(state)
    &&& t.fits()
    &&& t.bindings@.len() == 8
    &&& says_text(t.bindings@[0], 1, host)
    &&& says_text(t.bindings@[1], 2, cfg.interface@)
    &&& says_text(t.bindings@[2], 3, crate::alarm::word_of(state))
    &&& says_count(t.bindings@[3], 4, w.requests)
    &&& says_count(t.bindings@[4], 5, w.replies)
    &&& says_count(t.bindings@[5], 6, w.tftp_reads)
    &&& says_count(t.bindings@[6], 7, cfg.window)
    &&& says_text(t.bindings@[7], 8, busiest)
}

/// Builds the trap for a state: who says it, of which interface, the state,
/// the counts behind it, and where to look.
pub fn build_from(
    host: &str,
    cfg: &Config,
    state: &State,
    w: Window,
    at: u64,
    began: u64,
    busiest: &str,
) -> (r: Trap)
    requires
        at < began || (at - began) * 100 <= u64::MAX,
    ensures
        tells(r, host@, *cfg, *state, w, at, began, busiest@),
{
    let mut bindings: Vec<(Vec<u64>, Value)> = Vec::new();
    bindings.push((Trap::field(1), Value::Str(host.to_owned())));
    bindings.push((Trap::field(2), Value::Str(cfg.interface.clone())));
    bindings.push((Trap::field(3), Value::Str(state.word().to_owned())));
    bindings.push((Trap::field(4), Value::Count(w.requests)));
    bindings.push((Trap::field(5), Value::Count(w.replies)));
    bindings.push((Trap::field(6), Value::Count(w.tftp_reads)));
    bindings.push((Trap::field(7), Value::Count(cfg.window)));
    bindings.push((Trap::field(8), Value::Str(busiest.to_owned())));
    let which: u64 = match state {
        State::Working => 3,
        State::Quiet => 1,
        State::Unanswered => 2,
    };
    // TimeTicks are hundredths of a second.
    Trap { uptime_ticks: at.saturating_sub(began) * 100, which, bindings }
}

/// Builds the trap for a state, from this host.
pub fn build(cfg: &Config, state: &State, w: Window, at: u64, began: u64, busiest: &str) -> (r:
    Trap)
    requires
        at < began || (at - began) * 100 <= u64::MAX,
    ensures
        exists|host: Seq<char>| #[trigger]
            tells(r, host, *cfg, *state, w, at, began, busiest@) && match cfg.snmp.sysname {
                Some(n) => host == n@,
                None => true,
            },
{
    let host = host_name(cfg);
    build_from(host.as_str(), cfg, state, w, at, began, busiest)
}

/// What is said of a trap: that it was handed over, or why it was not.
pub fn trap_line(target: &Target, state: &State, failure: Option<&str>) -> (out: String)
    ensures
        out@ == (match failure {
            None => "    trap sent to "@ + target.host@ + ":"@ + crate::text::dec(
                target.port as nat,
            ) + " — "@ + crate::alarm::word_of(*state),
            Some(why) => "    trap to "@ + target.host@ + ":"@ + crate::text::dec(
                target.port as nat,
            ) + " failed: "@ + why@,
        }),
{
    let mut out = match failure {
        None => "    trap sent to ".to_owned(),
        Some(_) => "    trap to ".to_owned(),
    };
    out.append(target.host.as_str());
    out.append(":");
    push_dec(&mut out, target.port as u64);
    match failure {
        None => {
            out.append(" — ");
            out.append(state.word());
        },
        Some(why) => {
            out.append(" failed: ");
            out.append(why);
        },
    }
    out
}

/// What is said of a mail: who got it, or why nobody did. The subject goes into
/// the log with a failure, so the finding survives though the message did not.
pub fn mail_line(relay: &Smtp, subject: &str, failure: Option<&str>) -> (out: String)
    ensures
        out@ == (match failure {
            None => "    mailed "@ + crate::text::joined(crate::text::texts(relay.to@), ", "@)
                + " via "@ + relay.server@,
            Some(why) => "    mail via "@ + relay.server@ + " failed: "@ + why@ + " — "@
                + subject@,
        }),
{
    match failure {
        None => {
            let mut out = "    mailed ".to_owned();
            push_joined(&mut out, &relay.to, ", ");
            out.append(" via ");
            out.append(relay.server.as_str());
            out
        },
        Some(why) => {
            let mut out = "    mail via ".to_owned();
            out.append(relay.server.as_str());
            out.append(" failed: ");
            out.append(why);
            out.append(" — ");
            out.append(subject);
            out
        },
    }
}

// Judging.

/// Seconds since a row's last request, when it ever had one.
pub open spec fn idle_of(r: Relay, at: u64) -> Option<u64> {
    match r.last_request {
        Some(last) => Some(crate::relays::since(at, last)),
        None => None,
    }
}

/// The state of one interface at `at`: its silence against what it is allowed,
/// and what `recent` remembers of its requests and replies within the window
/// against the least fraction answered.
pub open spec fn interface_state(
    gi: Ipv4Addr,
    r: Relay,
    recent: Counters,
    cfg: Config,
    at: u64,
) -> State {
    let cutoff = crate::counters::cutoff_at(recent.span(), at);
    crate::alarm::state_of(
        recent.seen(crate::counters::through(gi), Kind::ClientRequest, cutoff) as u64,
        recent.seen(crate::counters::through(gi), Kind::ServerReply, cutoff) as u64,
        idle_of(r, at),
        cfg.per_relay.allowed(gi, cfg.thresholds.idle_seconds),
        crate::ratio::share_of(cfg.thresholds.min_answered@),
    )
}

/// Whether there is one verdict for each row, each on its own terms.
pub open spec fn judged(
    verdicts: Seq<RelayVerdict>,
    rows: Seq<(Ipv4Addr, &Relay)>,
    recent: Counters,
    cfg: Config,
    at: u64,
) -> bool {
    &&& verdicts.len() == rows.len()
    &&& forall|i: int|
        0 <= i < rows.len() ==> {
            let (gi, r) = rows[i];
            &&& (#[trigger] verdicts[i]).state == interface_state(gi, *r, recent, cfg, at)
            &&& verdicts[i].idle_for == idle_of(*r, at)
            &&& verdicts[i].idle_allowed == cfg.per_relay.allowed(gi, cfg.thresholds.idle_seconds)
        }
}

/// Judges every interface on its own terms, over the last window: a total
/// since start-up says nothing about whether the plant is working now.
pub fn judge_each(relays: &Relays, recent: &mut Counters, cfg: &Config, at: u64) -> (verdicts: Vec<
    RelayVerdict,
>)
    requires
        old(recent).well_formed(),
        crate::ratio::writes_share(cfg.thresholds.min_answered@),
    ensures
        final(recent).well_formed(),
        crate::counters::expired(*old(recent), *final(recent), at)
            || *final(recent) == *old(recent),
        exists|rows: Seq<(Ipv4Addr, &Relay)>| #[trigger]
            crate::relays::lists_rows(rows, relays.rows()) && judged(
                verdicts@,
                rows,
                *old(recent),
                *cfg,
                at,
            ),
{
    let least: Share = cfg.thresholds.least_answered().unwrap();
    let rows = relays.each();
    let ghost cutoff = crate::counters::cutoff_at(recent.span(), at);
    let mut verdicts: Vec<RelayVerdict> = Vec::new();
    let mut i: usize = 0;
    while i < rows.len()
        invariant
            i <= rows@.len(),
            recent.well_formed(),
            recent.span() == old(recent).span(),
            cutoff == crate::counters::cutoff_at(old(recent).span(), at),
            least@ == crate::ratio::share_of(cfg.thresholds.min_answered@),
            if i == 0 {
                *recent == *old(recent)
            } else {
                crate::counters::expired(*old(recent), *recent, at)
            },
            verdicts@.len() == i,
            forall|j: int|
                0 <= j < i ==> {
                    let (gi, r) = rows@[j];
                    &&& (#[trigger] verdicts@[j]).state == interface_state(
                        gi,
                        *r,
                        *old(recent),
                        *cfg,
                        at,
                    )
                    &&& verdicts@[j].idle_for == idle_of(*r, at)
                    &&& verdicts@[j].idle_allowed == cfg.per_relay.allowed(
                        gi,
                        cfg.thresholds.idle_seconds,
                    )
                },
        decreases rows@.len() - i,
    {
        let (gi, r) = rows[i];
        let ghost before = *recent;
        let w = recent.relayed(gi, at);
        proof {
            let want = crate::counters::through(gi);
            crate::counters::lemma_expired_twice(*old(recent), before, *recent, at);
            assert(before.seen(want, Kind::ClientRequest, cutoff) == old(recent).seen(
                want,
                Kind::ClientRequest,
                cutoff,
            ));
            assert(before.seen(want, Kind::ServerReply, cutoff) == old(recent).seen(
                want,
                Kind::ServerReply,
                cutoff,
            ));
            assert(w.count(Kind::ClientRequest) == w.requests);
            assert(w.count(Kind::ServerReply) == w.replies);
        }
        let allowed: u64 = cfg.per_relay.idle_seconds(gi, cfg.thresholds.idle_seconds);
        verdicts.push(judge_relay(w.requests, w.replies, r.idle_for(at), allowed, &least));
        i = i + 1;
    }
    proof {
        assert(crate::relays::lists_rows(rows@, relays.rows()));
        assert(judged(verdicts@, rows@, *old(recent), *cfg, at));
    }
    verdicts
}

// Watching.

/// A run: what was counted, what was said, and when the next report is due.
#[derive(Debug)]
pub struct Watch {
    /// Every packet, under the flow it was seen on.
    pub counts: Counters,
    /// The DHCP packets again, each under the interface it was counted for.
    pub owners: Counters,
    pub relays: Relays,
    /// What was told to the trap receivers.
    pub traps: Repeats,
    /// What was told by mail.
    pub mails: Repeats,
    pub began: u64,
    pub next_report: u64,
    /// Seconds between two reports.
    pub every: u64,
    /// How many seconds the run lasts, when it ends by itself.
    pub deadline: Option<u64>,
    /// Whether the run only measures, for so many minutes.
    pub adaptation: Option<u64>,
}

/// What a report found.
#[derive(Debug)]
pub struct Report {
    pub window: Window,
    pub verdicts: Vec<RelayVerdict>,
    pub state: State,
    /// The flows in the window, busiest first.
    pub flows: Vec<(Flow, Dest)>,
    /// Whether the trap receivers are told.
    pub tell_traps: bool,
    /// Whether those who get mail are told.
    pub tell_mail: bool,
}

/// What is to be done at a moment.
#[derive(Debug)]
pub enum Step {
    /// Nothing: no report is due.
    Wait,
    /// Print this: the run only measures.
    Progress(String),
    /// Print the report, and tell whoever it says.
    Report(Report),
}

/// The flow that a packet was seen on.
pub open spec fn flow_of(seen: Seen) -> Flow {
    Flow { src: seen.src, dst: seen.dst, gi: seen.gi }
}

impl Watch {
    /// What every operation keeps.
    pub open spec fn well_formed(&self) -> bool {
        &&& self.counts.well_formed()
        &&& self.owners.well_formed()
        &&& self.relays.well_formed()
        &&& self.counts.span() == self.owners.span()
        &&& forall|k: Kind|
            self.owners.in_all().count(k) <= #[trigger] self.counts.in_all().count(k)
        &&& self.every >= 1
    }

    /// Whether a packet can be counted: no count is at its limit.
    pub open spec fn room_for(&self, seen: Seen, at_ms: u64) -> bool {
        &&& self.counts.in_all().count(seen.kind) < u64::MAX
        &&& match seen.kind {
            Kind::ClientRequest => self.relays.room_for_request(seen.gi),
            Kind::ServerReply => self.relays.room_for_reply(seen.gi, seen.xid, at_ms),
            Kind::TftpRequest => self.relays.direct().tftp_requests < u64::MAX,
            Kind::TftpReply => self.relays.direct().tftp_sends < u64::MAX,
        }
    }
}

/// Whether everything but what is counted stayed as it was.
pub open spec fn same_run(before: Watch, after: Watch) -> bool {
    &&& after.began == before.began
    &&& after.next_report == before.next_report
    &&& after.every == before.every
    &&& after.deadline == before.deadline
    &&& after.adaptation == before.adaptation
}

/// Whether taking in one packet took a run from one state to another: it is
/// counted once on its flow, a DHCP packet is counted once more for the
/// interface it belongs to, and its row says so too.
pub open spec fn observed(before: Watch, after: Watch, seen: Seen, at: u64, at_ms: u64) -> bool {
    &&& same_run(before, after)
    &&& after.traps == before.traps
    &&& after.mails == before.mails
    &&& crate::counters::added(before.counts, after.counts, seen.kind, flow_of(seen), at)
    &&& match seen.kind {
        Kind::ClientRequest => {
            &&& crate::relays::requested(
                before.relays,
                after.relays,
                seen.gi,
                seen.xid,
                at,
                at_ms,
            )
            &&& crate::counters::added(
                before.owners,
                after.owners,
                seen.kind,
                flow_of(seen),
                at,
            )
        },
        Kind::ServerReply => {
            let owner = crate::relays::owner_of(before.relays.table(), seen.gi, seen.xid, at_ms);
            &&& crate::relays::replied(before.relays, after.relays, seen.gi, seen.xid, at, at_ms)
            &&& crate::counters::added(
                before.owners,
                after.owners,
                seen.kind,
                Flow { gi: owner, ..flow_of(seen) },
                at,
            )
        },
        Kind::TftpRequest => {
            &&& after.owners == before.owners
            &&& crate::relays::fetched(before.relays, after.relays, at, 1, 0)
        },
        Kind::TftpReply => {
            &&& after.owners == before.owners
            &&& crate::relays::fetched(before.relays, after.relays, at, 0, 1)
        },
    }
}

impl Watch {
    /// A run that begins now. An adaptation run lasts as long as it measures.
    pub fn start(cfg: &Config, began: u64, run_for: Option<u64>, adaptation: Option<u64>) -> (r:
        Watch)
        requires
            began + at_least(cfg.report_every, 1) <= u64::MAX,
            adaptation matches Some(mins) ==> mins * 60 <= u64::MAX,
        ensures
            r.well_formed(),
            r.began == began,
            r.every == at_least(cfg.report_every, 1),
            r.next_report == began + r.every,
            r.deadline == (match adaptation {
                Some(mins) => Some((mins * 60) as u64),
                None => run_for,
            }),
            r.adaptation == adaptation,
            r.counts.span() == at_least(cfg.window, 1),
            r.counts.in_all() == (Window {
                requests: 0,
                replies: 0,
                tftp_reads: 0,
                tftp_sends: 0,
            }),
            forall|want: spec_fn(Flow) -> bool, k: Kind, c: int| #[trigger]
                r.counts.seen(want, k, c) == 0,
            forall|want: spec_fn(Flow) -> bool, k: Kind, c: int| #[trigger]
                r.owners.seen(want, k, c) == 0,
            r.relays.rows() == Map::<u32, Relay>::empty(),
            r.relays.direct() == crate::relays::fresh_row(0),
            r.relays.table() == Map::<u32, crate::relays::Pending>::empty(),
            r.relays.swept() == 0,
            forall|f: Flow, c: int| #[trigger] r.counts.last_seen(f, c) is None,
            forall|f: Flow, c: int| #[trigger] r.owners.last_seen(f, c) is None,
            r.owners.in_all() == r.counts.in_all(),
            r.traps.interval() == cfg.thresholds.resend_after,
            r.traps.said() is None,
            !r.traps.owed(),
            r.mails.interval() == cfg.thresholds.resend_after,
            r.mails.said() is None,
            !r.mails.owed(),
    {
        let every: u64 = if cfg.report_every >= 1 {
            cfg.report_every
        } else {
            1
        };
        let deadline: Option<u64> = match adaptation {
            Some(mins) => Some(mins * 60),
            None => run_for,
        };
        Watch {
            counts: Counters::new(cfg.window),
            owners: Counters::new(cfg.window),
            relays: Relays::default(),
            traps: Repeats::new(cfg.thresholds.resend_after),
            mails: Repeats::new(cfg.thresholds.resend_after),
            began,
            next_report: began + every,
            every,
            deadline,
            adaptation,
        }
    }

    /// Whether the run is over.
    pub fn finished(&self, now: u64) -> (r: bool)
        ensures
            r == (match self.deadline {
                Some(secs) => crate::relays::since(now, self.began) >= secs,
                None => false,
            }),
    {
        match self.deadline {
            Some(secs) => now.saturating_sub(self.began) >= secs,
            None => false,
        }
    }

    /// Whether one more packet can be counted.
    pub fn has_room(&self, seen: &Seen, at_ms: u64) -> (r: bool)
        requires
            self.well_formed(),
        ensures
            r == self.room_for(*seen, at_ms),
    {
        if !self.counts.has_room(seen.kind) {
            return false;
        }
        match seen.kind {
            Kind::ClientRequest => self.relays.has_room_for_request(seen.gi),
            Kind::ServerReply => self.relays.has_room_for_reply(seen.gi, seen.xid, at_ms),
            Kind::TftpRequest => self.relays.unrelayed().tftp_requests < u64::MAX,
            Kind::TftpReply => self.relays.unrelayed().tftp_sends < u64::MAX,
        }
    }

    /// Takes in one packet.
    pub fn observe(&mut self, seen: Seen, at: u64, at_ms: u64)
        requires
            old(self).well_formed(),
            old(self).room_for(seen, at_ms),
        ensures
            final(self).well_formed(),
            observed(*old(self), *final(self), seen, at, at_ms),
    {
        let flow = Flow { src: seen.src, dst: seen.dst, gi: seen.gi };
        self.counts.add(seen.kind, flow, at);
        match seen.kind {
            Kind::ClientRequest => {
                self.relays.request(seen.gi, seen.xid, at, at_ms);
                self.owners.add(seen.kind, flow, at);
            },
            Kind::ServerReply => {
                let owner = self.relays.reply(seen.gi, seen.xid, at, at_ms);
                let flow = Flow { src: seen.src, dst: seen.dst, gi: owner };
                self.owners.add(seen.kind, flow, at);
            },
            Kind::TftpRequest => {
                self.relays.tftp_request(at);
            },
            Kind::TftpReply => {
                self.relays.tftp_send(at);
            },
        }
        proof {
            assert forall|k: Kind|
                self.owners.in_all().count(k) <= #[trigger] self.counts.in_all().count(k) by {
                assert(old(self).owners.in_all().count(k) <= old(self).counts.in_all().count(k));
            }
        }
    }

    /// What is to be done at a moment: nothing before a report is due; and then
    /// a line of progress in an adaptation run, which tells nobody, and a
    /// report in any other. The next one is due after `every` seconds.
    pub fn tick(&mut self, cfg: &Config, at: u64) -> (r: Step)
        requires
            old(self).well_formed(),
            at >= old(self).next_report ==> at + old(self).every <= u64::MAX,
            crate::ratio::writes_share(cfg.thresholds.min_answered@),
        ensures
            final(self).well_formed(),
            ticked(*old(self), *final(self), r, *cfg, at),
            at < old(self).next_report ==> r is Wait,
            at >= old(self).next_report && old(self).adaptation is Some ==> r is Progress,
            at >= old(self).next_report && old(self).adaptation is None ==> r is Report,
            old(self).adaptation is Some ==> final(self).traps == old(self).traps
                && final(self).mails == old(self).mails,
    {
        if at < self.next_report {
            return Step::Wait;
        }
        self.next_report = at + self.every;
        if self.adaptation.is_some() {
            Step::Progress(self.progress(at))
        } else {
            Step::Report(self.report(cfg, at))
        }
    }

    /// One line while an adaptation run is under way.
    fn progress(&mut self, at: u64) -> (out: String)
        requires
            old(self).well_formed(),
        ensures
            final(self).well_formed(),
            progressed(*old(self), *final(self), out@, at),
    {
        let w = self.counts.window(at);
        assert(holds_window(w, old(self).counts, at));
        progress_line(w)
    }

    /// Judges the window: what it holds, what that means of each interface and
    /// of the plant, who was talking, and whether somebody is told. An
    /// adaptation run tells nobody.
    pub fn report(&mut self, cfg: &Config, at: u64) -> (r: Report)
        requires
            old(self).well_formed(),
            crate::ratio::writes_share(cfg.thresholds.min_answered@),
        ensures
            final(self).well_formed(),
            reported(*old(self), *final(self), r, *cfg, at),
    {
        let window = self.counts.window(at);
        let ghost mid = self.counts;
        let verdicts = judge_each(&self.relays, &mut self.owners, cfg, at);
        let state = worst(verdicts.as_slice());
        let flows = self.counts.by_flow(at);
        proof {
            crate::counters::lemma_expired_twice(old(self).counts, mid, self.counts, at);
            crate::counters::lemma_lists_before_expiry(flows@, old(self).counts, mid, at);
        }
        let alarming: bool = self.adaptation.is_none();
        let targets: bool = alarming && cfg.snmp.targets.len() > 0;
        let relay: bool = alarming && cfg.mail().is_some();
        let tell_traps: bool = tell_over(targets, &mut self.traps, &state, at);
        let tell_mail: bool = tell_over(relay, &mut self.mails, &state, at);
        Report { window, verdicts, state, flows, tell_traps, tell_mail }
    }

    /// The last mail did not go out: the next window tries again. The traps
    /// went out, and what they told stays told.
    pub fn undelivered(&mut self)
        requires
            old(self).well_formed(),
        ensures
            final(self).well_formed(),
            mail_lost(*old(self), *final(self)),
            final(self).traps == old(self).traps,
    {
        self.mails.undelivered();
    }

    /// What is said when the run ends: the suggestions of an adaptation run, or
    /// the totals of any other.
    pub fn closing(&self) -> (out: Vec<String>)
        requires
            self.adaptation matches Some(mins) ==> mins * 60 <= u64::MAX,
        ensures
            match self.adaptation {
                Some(mins) => exists|all: Seq<Suggestion>| #[trigger]
                    crate::adapt::suggests(all, self.relays.rows(), (mins * 60) as u64)
                        && crate::text::texts(out@) == suggestions_text(
                        all,
                        self.relays.direct(),
                        (mins * 60) as u64,
                    ),
                None => crate::text::texts(out@) == seq![closing_text(self.counts.in_all())],
            },
    {
        match self.adaptation {
            Some(mins) => suggestion_lines(&self.relays, mins * 60),
            None => {
                let mut out: Vec<String> = Vec::new();
                out.push(closing_line(self.counts.total()));
                assert(crate::text::texts(out@) =~= seq![closing_text(self.counts.in_all())]);
                out
            },
        }
    }
}

/// Whether a line of progress took a run from one state to another: what the
/// window leaves out is forgotten, and nothing else changes.
pub open spec fn progressed(before: Watch, after: Watch, line: Seq<char>, at: u64) -> bool {
    &&& same_run(before, after)
    &&& after.relays == before.relays
    &&& after.traps == before.traps
    &&& after.mails == before.mails
    &&& after.owners == before.owners
    &&& crate::counters::expired(before.counts, after.counts, at)
    &&& exists|w: Window| #[trigger]
        holds_window(w, before.counts, at) && line == progress_text(w)
}

/// Whether a report took a run from one state to another: what it found, and
/// who is told. Each channel is told by its own memory, when it is configured
/// and the run is no adaptation run.
pub open spec fn reported(before: Watch, after: Watch, r: Report, cfg: Config, at: u64) -> bool {
    &&& same_run(before, after)
    &&& after.relays == before.relays
    &&& crate::counters::expired(before.counts, after.counts, at)
    &&& crate::counters::expired(before.owners, after.owners, at) || after.owners == before.owners
    &&& holds_window(r.window, before.counts, at)
    &&& exists|rows: Seq<(Ipv4Addr, &Relay)>| #[trigger]
        crate::relays::lists_rows(rows, before.relays.rows()) && judged(
            r.verdicts@,
            rows,
            before.owners,
            cfg,
            at,
        )
    &&& r.state == crate::alarm::worst_of(r.verdicts@)
    &&& crate::counters::lists_flows(
        r.flows@,
        before.counts,
        crate::counters::cutoff_at(before.counts.span(), at),
    )
    &&& asked_to_tell(
        before.traps,
        after.traps,
        before.adaptation is None && has_targets(cfg),
        r.state,
        at,
        r.tell_traps,
    )
    &&& asked_to_tell(
        before.mails,
        after.mails,
        before.adaptation is None && has_relay(cfg),
        r.state,
        at,
        r.tell_mail,
    )
}

/// Whether a tick took a run from one state to another.
pub open spec fn ticked(before: Watch, after: Watch, step: Step, cfg: Config, at: u64) -> bool {
    let due = Watch { next_report: (at + before.every) as u64, ..before };
    match step {
        Step::Wait => at < before.next_report && after == before,
        Step::Progress(line) => {
            &&& at >= before.next_report
            &&& before.adaptation is Some
            &&& progressed(due, after, line@, at)
        },
        Step::Report(r) => {
            &&& at >= before.next_report
            &&& before.adaptation is None
            &&& reported(due, after, r, cfg, at)
        },
    }
}

/// Whether a mail that did not go out took a run from one state to another:
/// only the memory of the mails changes.
pub open spec fn mail_lost(before: Watch, after: Watch) -> bool {
    &&& crate::alarm::not_arrived(before.mails, after.mails)
    &&& after == (Watch { mails: after.mails, ..before })
}

/// Whether a window holds what the counters remember at `now`.
pub open spec fn holds_window(w: Window, c: Counters, now: u64) -> bool {
    forall|k: Kind| #[trigger]
        w.count(k) == c.seen(
            crate::counters::any_flow(),
            k,
            crate::counters::cutoff_at(c.span(), now),
        )
}

// What holds of every run.

/// The last thing that an adaptation run says is the block to paste, where any
/// interface relayed anything.
pub proof fn law_the_block_comes_last(all: Seq<Suggestion>, unrelayed: Relay, watched_for: u64)
    requires
        all.len() > 0,
    ensures
        suggestions_text(all, unrelayed, watched_for).last() == crate::adapt::config_block(all),
{
}

/// One silent interface makes the plant quiet: the plant's state is quiet
/// exactly when some interface has been silent for longer than it is allowed.
pub proof fn law_one_silent_interface_makes_the_plant_quiet(
    verdicts: Seq<RelayVerdict>,
    rows: Seq<(Ipv4Addr, &Relay)>,
    recent: Counters,
    cfg: Config,
    at: u64,
)
    requires
        judged(verdicts, rows, recent, cfg, at),
    ensures
        crate::alarm::worst_of(verdicts) == State::Quiet <==> exists|i: int|
            0 <= i < rows.len() && {
                let (gi, r) = #[trigger] rows[i];
                idle_of(*r, at) matches Some(idle) && idle > cfg.per_relay.allowed(
                    gi,
                    cfg.thresholds.idle_seconds,
                )
            },
{
    if crate::alarm::worst_of(verdicts) == State::Quiet {
        let i = choose|i: int|
            0 <= i < verdicts.len() && (#[trigger] verdicts[i]).state == State::Quiet;
        let (gi, r) = rows[i];
        assert(interface_state(gi, *r, recent, cfg, at) == State::Quiet);
    }
    if exists|i: int|
        0 <= i < rows.len() && {
            let (gi, r) = #[trigger] rows[i];
            idle_of(*r, at) matches Some(idle) && idle > cfg.per_relay.allowed(
                gi,
                cfg.thresholds.idle_seconds,
            )
        } {
        let i = choose|i: int|
            0 <= i < rows.len() && {
                let (gi, r) = #[trigger] rows[i];
                idle_of(*r, at) matches Some(idle) && idle > cfg.per_relay.allowed(
                    gi,
                    cfg.thresholds.idle_seconds,
                )
            };
        assert(verdicts[i].state == State::Quiet);
    }
}

/// What is remembered as said after a run of reports, of which each says
/// whether there was anywhere to send to, the state, and when.
pub open spec fn said_through(
    said: Option<(State, u64)>,
    after: u64,
    reports: Seq<(bool, State, u64)>,
) -> Option<(State, u64)>
    decreases reports.len(),
{
    if reports.len() == 0 {
        said
    } else {
        let earlier = said_through(said, after, reports.drop_last());
        let (somewhere, state, at) = reports.last();
        if somewhere && crate::alarm::due(earlier, after, state, at) {
            Some((state, at))
        } else {
            earlier
        }
    }
}

/// A relay or a receiver added later hears about an outage at once: while
/// nothing is configured nothing is remembered as said, and trouble that nobody
/// was told of is due at any time.
pub proof fn law_a_relay_added_later_hears_at_once(
    after: u64,
    reports: Seq<(bool, State, u64)>,
    state: State,
    at: u64,
)
    requires
        forall|i: int| 0 <= i < reports.len() ==> !(#[trigger] reports[i]).0,
        state != State::Working,
    ensures
        said_through(None, after, reports) is None,
        crate::alarm::due(said_through(None, after, reports), after, state, at),
    decreases reports.len(),
{
    if reports.len() > 0 {
        let less = reports.drop_last();
        assert forall|i: int| 0 <= i < less.len() implies !(#[trigger] less[i]).0 by {
            assert(!reports[i].0);
        }
        assert(!reports[reports.len() - 1].0);
        law_a_relay_added_later_hears_at_once(after, less, state, at);
    }
}

/// The interface that a packet is counted for, when it is counted for one: the
/// one a request came through, and the one that asked for a reply. TFTP has
/// none.
pub open spec fn counted_for(before: Watch, seen: Seen, at_ms: u64) -> Option<Ipv4Addr> {
    match seen.kind {
        Kind::ClientRequest => seen.gi,
        Kind::ServerReply => crate::relays::owner_of(
            before.relays.table(),
            seen.gi,
            seen.xid,
            at_ms,
        ),
        _ => None,
    }
}

/// One interface is not judged by another's packets: whatever is counted for
/// one leaves the row of every other as it was, and what it means at any later
/// moment too.
pub proof fn law_interfaces_are_judged_apart(
    before: Watch,
    after: Watch,
    seen: Seen,
    at: u64,
    at_ms: u64,
    other: Ipv4Addr,
    row: Relay,
    cfg: Config,
    later: u64,
)
    requires
        observed(before, after, seen, at, at_ms),
        counted_for(before, seen, at_ms) != Some(other),
        at <= later,
    ensures
        after.relays.rows().contains_key(other.bits) == before.relays.rows().contains_key(
            other.bits,
        ),
        before.relays.rows().contains_key(other.bits) ==> after.relays.rows()[other.bits]
            == before.relays.rows()[other.bits],
        interface_state(other, row, after.owners, cfg, later) == interface_state(
            other,
            row,
            before.owners,
            cfg,
            later,
        ),
{
    if seen.kind == Kind::ClientRequest || seen.kind == Kind::ServerReply {
        let flow = Flow { gi: counted_for(before, seen, at_ms), ..flow_of(seen) };
        assert(flow_of(seen) == (Flow { gi: seen.gi, ..flow_of(seen) }));
        let want = crate::counters::through(other);
        let c = crate::counters::cutoff_at(before.owners.span(), later);
        assert(!want(flow));
        assert forall|k: Kind| #[trigger] after.owners.seen(want, k, c) == before.owners.seen(
            want,
            k,
            c,
        ) by {
            assert(crate::counters::later(
                c,
                crate::counters::cutoff_at(before.owners.span(), at),
            ) == c);
        }
        assert(after.owners.seen(want, Kind::ClientRequest, c) == before.owners.seen(
            want,
            Kind::ClientRequest,
            c,
        ));
        assert(after.owners.seen(want, Kind::ServerReply, c) == before.owners.seen(
            want,
            Kind::ServerReply,
            c,
        ));
    }
}

/// TFTP is counted and not alarmed on: a TFTP packet changes no interface's
/// verdict, and so not the plant's state.
pub proof fn law_tftp_is_not_alarmed_on(
    before: Watch,
    after: Watch,
    seen: Seen,
    at: u64,
    at_ms: u64,
    verdicts: Seq<RelayVerdict>,
    rows: Seq<(Ipv4Addr, &Relay)>,
    cfg: Config,
    now: u64,
)
    requires
        observed(before, after, seen, at, at_ms),
        seen.kind == Kind::TftpRequest || seen.kind == Kind::TftpReply,
    ensures
        crate::relays::lists_rows(rows, after.relays.rows()) && judged(
            verdicts,
            rows,
            after.owners,
            cfg,
            now,
        ) <==> crate::relays::lists_rows(rows, before.relays.rows()) && judged(
            verdicts,
            rows,
            before.owners,
            cfg,
            now,
        ),
{
}

// What holds of whole runs, with packets, reports and failed mails in any
// order.

/// Something that happened in a run.
pub ghost enum Event {
    Packet { seen: Seen, at: u64, at_ms: u64 },
    Tick { step: Step, at: u64 },
    MailFailed,
}

/// Whether an event took a run from one state to another.
pub open spec fn happened(before: Watch, after: Watch, cfg: Config, e: Event) -> bool {
    match e {
        Event::Packet { seen, at, at_ms } => observed(before, after, seen, at, at_ms),
        Event::Tick { step, at } => ticked(before, after, step, cfg, at),
        Event::MailFailed => mail_lost(before, after),
    }
}

/// Whether the events took a run through `states`.
pub open spec fn ran(states: Seq<Watch>, cfg: Config, events: Seq<Event>) -> bool {
    &&& states.len() == events.len() + 1
    &&& forall|i: int|
        0 <= i < events.len() ==> happened(states[i], states[i + 1], cfg, #[trigger] events[i])
}

/// The states that were reported, and when.
pub open spec fn reports_of(events: Seq<Event>) -> Seq<(State, u64)>
    decreases events.len(),
{
    if events.len() == 0 {
        Seq::empty()
    } else {
        let earlier = reports_of(events.drop_last());
        match events.last() {
            Event::Tick { step: Step::Report(r), at } => earlier.push((r.state, at)),
            _ => earlier,
        }
    }
}

proof fn lemma_ran_less(states: Seq<Watch>, cfg: Config, events: Seq<Event>)
    requires
        ran(states, cfg, events),
        events.len() > 0,
    ensures
        ran(states.drop_last(), cfg, events.drop_last()),
        happened(states[events.len() - 1], states.last(), cfg, events.last()),
        states.drop_last().last() == states[events.len() - 1],
        states.drop_last()[0] == states[0],
{
    let (less, fewer) = (states.drop_last(), events.drop_last());
    assert forall|i: int| 0 <= i < fewer.len() implies happened(
        less[i],
        less[i + 1],
        cfg,
        #[trigger] fewer[i],
    ) by {
        assert(fewer[i] == events[i]);
    }
    assert(events[events.len() - 1] == events.last());
}

/// A run ends when it was meant to: no packet, report or failed mail moves its
/// beginning or its end, and an adaptation run stays one.
pub proof fn law_a_run_keeps_its_end(states: Seq<Watch>, cfg: Config, events: Seq<Event>)
    requires
        ran(states, cfg, events),
    ensures
        states.last().began == states[0].began,
        states.last().deadline == states[0].deadline,
        states.last().adaptation == states[0].adaptation,
        states.last().every == states[0].every,
    decreases events.len(),
{
    if events.len() > 0 {
        lemma_ran_less(states, cfg, events);
        law_a_run_keeps_its_end(states.drop_last(), cfg, events.drop_last());
    }
}

/// An adaptation run sends no trap and no mail, whatever is configured and
/// whatever arrives: no tick of it makes a report, and both channels are
/// remembered as told what they were told before.
pub proof fn law_an_adaptation_run_tells_nobody(
    states: Seq<Watch>,
    cfg: Config,
    events: Seq<Event>,
)
    requires
        ran(states, cfg, events),
        states[0].adaptation is Some,
    ensures
        states.last().traps == states[0].traps,
        states.last().mails.said() == states[0].mails.said(),
        forall|i: int|
            0 <= i < events.len() && (#[trigger] events[i]) is Tick ==> !(events[i]->Tick_step
                is Report),
    decreases events.len(),
{
    if events.len() > 0 {
        lemma_ran_less(states, cfg, events);
        let fewer = events.drop_last();
        law_an_adaptation_run_tells_nobody(states.drop_last(), cfg, fewer);
        law_a_run_keeps_its_end(states.drop_last(), cfg, fewer);
        assert forall|i: int|
            0 <= i < events.len() && (#[trigger] events[i]) is Tick implies !(events[i]->Tick_step
            is Report) by {
            if i < fewer.len() {
                assert(fewer[i] == events[i]);
            }
        }
    }
}

/// What the trap receivers were told depends on the reports alone: a failed
/// mail changes nothing of it.
pub proof fn law_traps_are_remembered_whatever_mail_does(
    states: Seq<Watch>,
    cfg: Config,
    events: Seq<Event>,
)
    requires
        ran(states, cfg, events),
        states[0].adaptation is None,
        !states[0].traps.owed(),
        has_targets(cfg),
    ensures
        !states.last().traps.owed(),
        states.last().traps.interval() == states[0].traps.interval(),
        states.last().traps.said() == crate::alarm::said_after(
            states[0].traps.said(),
            states[0].traps.interval(),
            reports_of(events),
        ),
    decreases events.len(),
{
    if events.len() > 0 {
        lemma_ran_less(states, cfg, events);
        law_traps_are_remembered_whatever_mail_does(states.drop_last(), cfg, events.drop_last());
        law_a_run_keeps_its_end(states.drop_last(), cfg, events.drop_last());
        let earlier = reports_of(events.drop_last());
        let all = reports_of(events);
        if let Event::Tick { step: Step::Report(r), at } = events.last() {
            assert(all.drop_last() =~= earlier);
            assert(all.last() == (r.state, at));
        }
    }
}

/// What both channels remember is of the state reported last, once anything was
/// reported; or nothing, when that is a plant that has worked from the start.
proof fn lemma_last_state_is_remembered(states: Seq<Watch>, cfg: Config, events: Seq<Event>)
    requires
        ran(states, cfg, events),
        states[0].adaptation is None,
        reports_of(events).len() > 0,
    ensures
        has_targets(cfg) ==> (match states.last().traps.said() {
            Some((state, _)) => state == reports_of(events).last().0,
            None => reports_of(events).last().0 == State::Working,
        }),
        has_relay(cfg) ==> (match states.last().mails.said() {
            Some((state, _)) => state == reports_of(events).last().0,
            None => reports_of(events).last().0 == State::Working,
        }),
    decreases events.len(),
{
    lemma_ran_less(states, cfg, events);
    law_a_run_keeps_its_end(states.drop_last(), cfg, events.drop_last());
    if !(events.last() is Tick && events.last()->Tick_step is Report) {
        lemma_last_state_is_remembered(states.drop_last(), cfg, events.drop_last());
    }
}

/// A change of state always goes out, the recovery included, over every channel
/// that is configured and however many mails have failed: a report of another
/// state than the report before it is told. So is the first report, when it is
/// of trouble.
pub proof fn law_a_change_reaches_every_channel(
    states: Seq<Watch>,
    cfg: Config,
    events: Seq<Event>,
    after: Watch,
    r: Report,
    at: u64,
)
    requires
        ran(states, cfg, events),
        states[0].adaptation is None,
        states[0].traps.said() is None,
        states[0].mails.said() is None,
        ticked(states.last(), after, Step::Report(r), cfg, at),
        if reports_of(events).len() > 0 {
            r.state != reports_of(events).last().0
        } else {
            r.state != State::Working
        },
    ensures
        r.tell_traps == has_targets(cfg),
        r.tell_mail == has_relay(cfg),
{
    law_a_run_keeps_its_end(states, cfg, events);
    if reports_of(events).len() > 0 {
        lemma_last_state_is_remembered(states, cfg, events);
    } else {
        lemma_nothing_said_without_a_report(states, cfg, events);
    }
}

proof fn lemma_nothing_said_without_a_report(states: Seq<Watch>, cfg: Config, events: Seq<Event>)
    requires
        ran(states, cfg, events),
        reports_of(events).len() == 0,
    ensures
        states.last().traps.said() == states[0].traps.said(),
        states.last().mails.said() == states[0].mails.said(),
    decreases events.len(),
{
    if events.len() > 0 {
        lemma_ran_less(states, cfg, events);
        lemma_nothing_said_without_a_report(states.drop_last(), cfg, events.drop_last());
    }
}

/// The same trouble is not repeated to the trap receivers within
/// `resend_after` seconds, however many mails have failed: when a report of
/// trouble was told and every one since is of the same trouble, another within
/// that time is not told.
pub proof fn law_the_same_trouble_does_not_reach_the_traps_again(
    states: Seq<Watch>,
    cfg: Config,
    events: Seq<Event>,
    k: int,
    after: Watch,
    r: Report,
    at: u64,
)
    requires
        ran(states, cfg, events),
        states[0].adaptation is None,
        !states[0].traps.owed(),
        has_targets(cfg),
        0 <= k < reports_of(events).len(),
        reports_of(events)[k].0 != State::Working,
        crate::alarm::due(
            crate::alarm::said_after(
                states[0].traps.said(),
                states[0].traps.interval(),
                reports_of(events).take(k),
            ),
            states[0].traps.interval(),
            reports_of(events)[k].0,
            reports_of(events)[k].1,
        ),
        forall|i: int|
            k < i < reports_of(events).len() ==> (#[trigger] reports_of(events)[i]).0
                == reports_of(events)[k].0 && reports_of(events)[k].1 <= reports_of(events)[i].1
                < reports_of(events)[k].1 + states[0].traps.interval(),
        ticked(states.last(), after, Step::Report(r), cfg, at),
        r.state == reports_of(events)[k].0,
        reports_of(events)[k].1 <= at < reports_of(events)[k].1 + states[0].traps.interval(),
    ensures
        !r.tell_traps,
{
    law_traps_are_remembered_whatever_mail_does(states, cfg, events);
    crate::alarm::lemma_said_until_due(
        states[0].traps.said(),
        states[0].traps.interval(),
        reports_of(events),
        k,
    );
}

/// While no mail fails, mail goes out exactly when traps do: from a start that
/// both channels share, every report tells both or neither.
pub proof fn law_mail_goes_out_with_the_traps_while_none_fails(
    states: Seq<Watch>,
    cfg: Config,
    events: Seq<Event>,
    after: Watch,
    r: Report,
    at: u64,
)
    requires
        ran(states, cfg, events),
        forall|i: int| 0 <= i < events.len() ==> !((#[trigger] events[i]) is MailFailed),
        has_targets(cfg),
        has_relay(cfg),
        states[0].mails.interval() == states[0].traps.interval(),
        states[0].mails.said() == states[0].traps.said(),
        states[0].mails.owed() == states[0].traps.owed(),
        ticked(states.last(), after, Step::Report(r), cfg, at),
    ensures
        r.tell_mail == r.tell_traps,
{
    lemma_same_memories(states, cfg, events);
}

proof fn lemma_same_memories(states: Seq<Watch>, cfg: Config, events: Seq<Event>)
    requires
        ran(states, cfg, events),
        forall|i: int| 0 <= i < events.len() ==> !((#[trigger] events[i]) is MailFailed),
        has_targets(cfg),
        has_relay(cfg),
        states[0].mails.interval() == states[0].traps.interval(),
        states[0].mails.said() == states[0].traps.said(),
        states[0].mails.owed() == states[0].traps.owed(),
    ensures
        states.last().mails.interval() == states.last().traps.interval(),
        states.last().mails.said() == states.last().traps.said(),
        states.last().mails.owed() == states.last().traps.owed(),
    decreases events.len(),
{
    if events.len() > 0 {
        lemma_ran_less(states, cfg, events);
        let fewer = events.drop_last();
        assert forall|i: int| 0 <= i < fewer.len() implies !((#[trigger] fewer[i])
            is MailFailed) by {
            assert(fewer[i] == events[i]);
        }
        lemma_same_memories(states.drop_last(), cfg, fewer);
        assert(!(events[events.len() - 1] is MailFailed));
    }
}

/// A mail that failed is tried again in the next window: the next report is
/// told by mail, whatever it finds and whatever arrives in between.
pub proof fn law_a_failed_mail_is_tried_again(
    before: Watch,
    told: Watch,
    lost: Watch,
    states: Seq<Watch>,
    packets: Seq<Event>,
    after: Watch,
    cfg: Config,
    r: Report,
    at: u64,
    next: Report,
    later: u64,
)
    requires
        ticked(before, told, Step::Report(r), cfg, at),
        r.tell_mail,
        mail_lost(told, lost),
        ran(states, cfg, packets),
        states[0] == lost,
        forall|i: int| 0 <= i < packets.len() ==> (#[trigger] packets[i]) is Packet,
        ticked(states.last(), after, Step::Report(next), cfg, later),
    ensures
        next.tell_mail,
{
    lemma_packets_tell_nobody(states, cfg, packets);
}

proof fn lemma_packets_tell_nobody(states: Seq<Watch>, cfg: Config, packets: Seq<Event>)
    requires
        ran(states, cfg, packets),
        forall|i: int| 0 <= i < packets.len() ==> (#[trigger] packets[i]) is Packet,
    ensures
        states.last().mails == states[0].mails,
        states.last().adaptation == states[0].adaptation,
    decreases packets.len(),
{
    if packets.len() > 0 {
        lemma_ran_less(states, cfg, packets);
        let fewer = packets.drop_last();
        assert forall|i: int| 0 <= i < fewer.len() implies (#[trigger] fewer[i]) is Packet by {
            assert(fewer[i] == packets[i]);
        }
        lemma_packets_tell_nobody(states.drop_last(), cfg, fewer);
        assert(packets[packets.len() - 1] is Packet);
    }
}

// What each line is for.

/// The opening of a run names the interface, the window, how often it reports
/// (once a second at the most) and who is told, and then the interfaces that
/// have thresholds of their own; that of an adaptation run names the interface
/// and the minutes, and promises that no alarm is raised.
pub proof fn law_the_opening_says_what_is_watched(
    cfg: Config,
    names: Seq<Seq<char>>,
    mins: u64,
    every: u64,
)
    requires
        every == (if cfg.report_every == 0 {
            1
        } else {
            cfg.report_every
        }),
    ensures
        opening_lines(cfg, names, Some(mins)) == seq![
            "ADAPTATION: watching "@ + cfg.interface@ + " for "@ + crate::text::dec(mins as nat)
                + " minute(s) to work out what idle means on each CMTS interface. No alarms will be raised."@,
        ],
        opening_lines(cfg, names, None).len() == (if names.len() == 0 {
            1int
        } else {
            2int
        }),
        opening_lines(cfg, names, None)[0] == "watching "@ + cfg.interface@
            + ": judging on the last "@ + crate::text::dec(cfg.window as nat)
            + "s, reporting every "@ + crate::text::dec(every as nat) + "s, "@ + told_text(cfg),
        names.len() > 0 ==> opening_lines(cfg, names, None)[1] == "  per-interface thresholds for: "@
            + crate::text::joined(names, ", "@),
{
}

/// Who is told, in words: how many trap receivers, and everybody that gets
/// mail.
pub proof fn law_who_is_told_is_said(cfg: Config)
    ensures
        ({
            let n = cfg.snmp.targets@.len();
            let told = told_text(cfg);
            let people = crate::text::joined(crate::text::texts((cfg.smtp->0).to@), ", "@);
            &&& cfg.mail_relay() is None && n == 0 ==> told
                == "no trap targets and no mail relay: the log only"@
            &&& cfg.mail_relay() is None && n > 0 ==> told == crate::text::dec(n)
                + " trap target(s)"@
            &&& cfg.mail_relay() is Some && n == 0 ==> told == "mail to "@ + people
            &&& cfg.mail_relay() is Some && n > 0 ==> told == crate::text::dec(n)
                + " trap target(s) and mail to "@ + people
        }),
{
}

/// Progress and the end of a run give the counts that they are of, each before
/// its own word.
pub proof fn law_counts_stand_before_their_words(w: Window)
    ensures
        progress_text(w) == "  still watching: "@ + crate::text::dec(w.requests as nat)
            + " requests, "@ + crate::text::dec(w.replies as nat) + " replies, "@
            + crate::text::dec(w.tftp_reads as nat) + " tftp requests in the last window"@,
        closing_text(w) == "stopping: "@ + crate::text::dec(w.requests as nat) + " requests, "@
            + crate::text::dec(w.replies as nat) + " replies, "@ + crate::text::dec(
            w.tftp_reads as nat,
        ) + " tftp requests seen in all"@,
{
}

/// The plant's line gives the window, everything that it holds, and the verdict
/// in its word; and a report has it on its third line, under an empty one and
/// the stamp.
pub proof fn law_a_report_opens_so(
    stamp: Seq<char>,
    window: u64,
    w: Window,
    percent: Seq<char>,
    state: State,
)
    ensures
        ({
            let line = crate::text::dec(window as nat) + "s window: "@ + crate::text::dec(
                w.requests as nat,
            ) + " requests, "@ + crate::text::dec(w.replies as nat) + " replies ("@ + percent
                + "% answered), "@ + crate::text::dec(w.tftp_reads as nat) + " tftp requests, "@
                + crate::text::dec(w.tftp_sends as nat) + " tftp sends — "@ + (match state {
                State::Working => "working"@,
                State::Quiet => "quiet"@,
                State::Unanswered => "unanswered"@,
            });
            &&& window_text(window, w, percent, state) == line
            &&& heading_text(stamp, window, w, percent, state) == "\n"@ + stamp + "\n"@ + line
        }),
{
}

/// An interface's line has its requests and replies, its answers with the mean
/// and the worst time, the silence so far and the silence allowed, and in which
/// state it is.
pub proof fn law_the_line_of_an_interface(gi: Ipv4Addr, r: Relay, v: RelayVerdict, at: u64)
    ensures
        ({
            let answers = if r.answered == 0 {
                "nothing answered"@
            } else {
                crate::text::dec((r.answer_ms_total / r.answered) as nat) + "ms mean, "@
                    + crate::text::dec(r.answer_ms_worst as nat) + "ms worst"@
            };
            let idle = match r.last_request {
                None => "never"@,
                Some(last) => crate::text::dec(
                    if at >= last {
                        (at - last) as nat
                    } else {
                        0
                    },
                ) + "s"@,
            };
            relay_text(gi, r, v, at) == "    "@ + crate::text::pad_right(gi.dotted(), 16) + " "@
                + crate::text::pad_left(crate::text::dec(r.requests as nat), 7) + " req "@
                + crate::text::pad_left(crate::text::dec(r.replies as nat), 7) + " rep  "@
                + crate::text::pad_left(crate::text::dec(r.answered as nat), 6) + " answered, "@
                + answers + "  idle "@ + idle + " of "@ + crate::text::dec(v.idle_allowed as nat)
                + "s — "@ + (match v.state {
                State::Working => "working"@,
                State::Quiet => "quiet"@,
                State::Unanswered => "unanswered"@,
            })
        }),
{
}

/// A report has a line for every interface in their order, then one for the
/// requests that wait where any do, and then one for what came without a
/// gi-address where anything did.
pub proof fn law_every_interface_has_its_line(
    rows: Seq<(Ipv4Addr, &Relay)>,
    verdicts: Seq<RelayVerdict>,
    waiting: nat,
    u: Relay,
    at: u64,
)
    requires
        verdicts.len() == rows.len(),
    ensures
        ({
            let out = per_relay_text(rows, verdicts, waiting, u, at);
            let n = rows.len() as int;
            let some = u.requests > 0 || u.replies > 0 || u.tftp_requests > 0 || u.tftp_sends > 0;
            let waits: int = if waiting > 0 {
                1
            } else {
                0
            };
            &&& out.len() == n + waits + (if some {
                1int
            } else {
                0int
            })
            &&& forall|i: int|
                0 <= i < n ==> #[trigger] out[i] == relay_text(rows[i].0, *rows[i].1, verdicts[i], at)
            &&& waiting > 0 ==> out[n] == "    "@ + crate::text::dec(waiting)
                + " request(s) still waiting for an answer"@
            &&& some ==> out[n + waits] == "    "@ + crate::text::pad_right(
                "(no gi-address)"@,
                16,
            ) + " "@ + crate::text::pad_left(crate::text::dec(u.requests as nat), 7) + " req "@
                + crate::text::pad_left(crate::text::dec(u.replies as nat), 7) + " rep  "@
                + crate::text::dec(u.tftp_requests as nat) + " tftp requests, "@
                + crate::text::dec(u.tftp_sends as nat) + " tftp sends"@
        }),
{
}

/// The list of conversations has a line for each of the first twelve, with both
/// ends, the gi-address where there is one, and the four counts in their order;
/// and where there are more, how many more.
pub proof fn law_the_busiest_twelve_are_listed(flows: Seq<(Flow, Dest)>, ends: Seq<Ends>)
    ensures
        ({
            let out = flows_text(flows, ends);
            let shown: int = if flows.len() <= 12 {
                flows.len() as int
            } else {
                12
            };
            &&& out.len() == (if flows.len() > 12 {
                13int
            } else {
                shown
            })
            &&& forall|i: int|
                0 <= i < shown ==> {
                    let (flow, d) = flows[i];
                    let src = match flow.src {
                        IpAddr::V4(a) => a.dotted(),
                        IpAddr::V6(_) => ends[i].src@,
                    };
                    let dst = match flow.dst {
                        IpAddr::V4(a) => a.dotted(),
                        IpAddr::V6(_) => ends[i].dst@,
                    };
                    let via = match flow.gi {
                        Some(g) => " gi "@ + g.dotted(),
                        None => Seq::empty(),
                    };
                    #[trigger] out[i] == "    "@ + crate::text::pad_left(src, 15) + " -> "@
                        + crate::text::pad_right(dst, 15) + crate::text::pad_right(via, 18) + " "@
                        + crate::text::pad_left(crate::text::dec(d.counts@[0] as nat), 6) + " req "@
                        + crate::text::pad_left(crate::text::dec(d.counts@[1] as nat), 6) + " rep "@
                        + crate::text::pad_left(crate::text::dec(d.counts@[2] as nat), 6)
                        + " tftp-req "@ + crate::text::pad_left(
                        crate::text::dec(d.counts@[3] as nat),
                        6,
                    ) + " tftp-send"@
                }
            &&& flows.len() > 12 ==> out[12] == "    ... and "@ + crate::text::dec(
                (flows.len() - 12) as nat,
            ) + " more"@
        }),
{
}

/// The busiest conversation is the first that is listed, by its source and the
/// gi-address that it went through, or by both its ends.
pub proof fn law_the_busiest_is_the_first(flows: Seq<(Flow, Dest)>, ends: Seq<Ends>)
    ensures
        flows.len() == 0 ==> busiest_text(flows, ends) == "none"@,
        flows.len() > 0 ==> {
            let flow = flows[0].0;
            let src = match flow.src {
                IpAddr::V4(a) => a.dotted(),
                IpAddr::V6(_) => ends[0].src@,
            };
            let dst = match flow.dst {
                IpAddr::V4(a) => a.dotted(),
                IpAddr::V6(_) => ends[0].dst@,
            };
            &&& flow.gi matches Some(g) ==> busiest_text(flows, ends) == src + " via "@ + g.dotted()
            &&& flow.gi is None ==> busiest_text(flows, ends) == src + " -> "@ + dst
        },
{
}

/// An address of four bytes is written in its dotted form, and the text that is
/// given only serves for one of sixteen.
pub proof fn law_only_sixteen_bytes_need_a_text(a: Ipv4Addr, b: Ipv6Addr, text: Seq<char>)
    ensures
        end_text(IpAddr::V4(a), text) == a.dotted(),
        end_text(IpAddr::V6(b), text) == text,
{
}

/// An adaptation run ends with a heading, a line for every suggestion in their
/// order with the number and the evidence, what TFTP there was, the caveat, and
/// the block; and with a word of what is wrong where nothing was relayed.
pub proof fn law_an_adaptation_run_ends_so(
    all: Seq<Suggestion>,
    unrelayed: Relay,
    watched_for: u64,
)
    ensures
        ({
            let out = suggestions_text(all, unrelayed, watched_for);
            let n = all.len() as int;
            &&& out[0] == ""@
            &&& out[1] == "─── what this plant looks like after "@ + crate::text::dec(
                (watched_for / 60) as nat,
            ) + " ───"@
            &&& n == 0 ==> out.len() == 5 && out[2]
                == "  No CMTS relayed anything at all. Either nothing is being"@ && out[3]
                == "  provisioned, or this is not the interface the relays reach the"@ && out[4]
                == "  server on."@
            &&& n > 0 ==> {
                &&& out.len() == n + 12
                &&& forall|i: int|
                    0 <= i < n ==> #[trigger] out[i + 2] == (match all[i].idle_seconds {
                        Some(s) => "  "@ + crate::text::pad_right(all[i].gi.dotted(), 16)
                            + " idle_seconds "@ + crate::text::pad_right(
                            crate::text::dec(s as nat),
                            7,
                        ) + " "@ + all[i].because@,
                        None => "  "@ + crate::text::pad_right(all[i].gi.dotted(), 16)
                            + " no suggestion — "@ + all[i].because@,
                    })
                &&& out[n + 2] == "  TFTP saw "@ + crate::text::dec(unrelayed.tftp_requests as nat)
                    + " requests and "@ + crate::text::dec(unrelayed.tftp_sends as nat)
                    + " sends. It is not alarmed on and has no"@
                &&& out[n + 3]
                    == "  threshold: the equipment behind a modem never touches it, so a plant"@
                &&& out[n + 4] == "  fetches a config when a modem boots and not again."@
                &&& out[n + 5] == ""@
                &&& out[n + 6]
                    == "This watched one window of one day. A plant is busiest in the evening"@
                &&& out[n + 7]
                    == "and quietest at four in the morning; neither is in here unless you"@
                &&& out[n + 8] == "ran it then."@
                &&& out[n + 9] == ""@
                &&& out[n + 10] == "Paste into the configuration, and read the numbers above first:"@
                &&& out[n + 11] == crate::adapt::config_block(all)
            }
        }),
{
    let out = suggestions_text(all, unrelayed, watched_for);
    let lines = suggestion_texts(all);
    assert forall|i: int| 0 <= i < all.len() implies #[trigger] out[i + 2] == suggestion_text(
        all[i],
    ) by {
        assert(out[i + 2] == lines[i]);
    }
}

/// A trap carries its number and eight fields, each under its own name: the
/// host, the interface, the state in its word, the requests, the replies, the
/// TFTP reads, the window, and where to look; and hundredths of a second since
/// the run began.
pub proof fn law_a_trap_carries_the_finding(
    t: Trap,
    host: Seq<char>,
    cfg: Config,
    state: State,
    w: Window,
    at: u64,
    began: u64,
    busiest: Seq<char>,
)
    requires
        tells(t, host, cfg, state, w, at, began, busiest),
    ensures
        state == State::Quiet ==> t.which == 1,
        state == State::Unanswered ==> t.which == 2,
        state == State::Working ==> t.which == 3,
        at >= began ==> t.uptime_ticks == 100 * (at - began),
        at < began ==> t.uptime_ticks == 0,
        t.bindings@.len() == 8,
        forall|i: int|
            0 <= i < 8 ==> (#[trigger] t.bindings@[i]).0@ == seq![
                1u64,
                3,
                6,
                1,
                4,
                1,
                99_999,
                1,
                (i + 1) as u64,
            ],
        t.bindings@[0].1 matches Value::Str(s) && s@ == host,
        t.bindings@[1].1 matches Value::Str(s) && s@ == cfg.interface@,
        t.bindings@[2].1 matches Value::Str(s) && s@ == (match state {
            State::Working => "working"@,
            State::Quiet => "quiet"@,
            State::Unanswered => "unanswered"@,
        }),
        t.bindings@[3].1 matches Value::Count(n) && n == w.requests,
        t.bindings@[4].1 matches Value::Count(n) && n == w.replies,
        t.bindings@[5].1 matches Value::Count(n) && n == w.tftp_reads,
        t.bindings@[6].1 matches Value::Count(n) && n == cfg.window,
        t.bindings@[7].1 matches Value::Str(s) && s@ == busiest,
{
    let arc = crate::snmp::enterprise();
    assert forall|i: int| 0 <= i < 8 implies (#[trigger] t.bindings@[i]).0@ == seq![
        1u64,
        3,
        6,
        1,
        4,
        1,
        99_999,
        1,
        (i + 1) as u64,
    ] by {
        assert(t.bindings@[i].0@ == arc.push(1).push((i + 1) as u64));
        assert(arc.push(1).push((i + 1) as u64) =~= seq![
            1u64,
            3,
            6,
            1,
            4,
            1,
            99_999,
            1,
            (i + 1) as u64,
        ]);
    }
}

// What each step is for.

/// An interface is judged by its own numbers: the requests that came through it
/// within the window and the replies that belong to it, when its last request
/// came, and the silence that it is allowed.
pub proof fn law_an_interface_is_judged_by_its_numbers(
    gi: Ipv4Addr,
    r: Relay,
    recent: Counters,
    cfg: Config,
    at: u64,
    requests: u64,
    replies: u64,
)
    requires
        requests == recent.seen(
            crate::counters::through(gi),
            Kind::ClientRequest,
            crate::counters::cutoff_at(recent.span(), at),
        ),
        replies == recent.seen(
            crate::counters::through(gi),
            Kind::ServerReply,
            crate::counters::cutoff_at(recent.span(), at),
        ),
    ensures
        ({
            let state = interface_state(gi, r, recent, cfg, at);
            let allowed = cfg.per_relay.allowed(gi, cfg.thresholds.idle_seconds);
            let least = crate::ratio::share_of(cfg.thresholds.min_answered@);
            let late = r.last_request is Some && at > (r.last_request->0) + allowed;
            let short = requests >= 5 && replies * least.den < least.num * requests;
            &&& state == State::Quiet <==> late
            &&& state == State::Unanswered <==> r.last_request is Some && !late && short
            &&& state == State::Working <==> r.last_request is None || !late && !short
        }),
{
}

/// Every interface has its verdict, in the order of the rows, with how long it
/// has been silent and how long it may be.
pub proof fn law_every_interface_has_its_verdict(
    verdicts: Seq<RelayVerdict>,
    rows: Seq<(Ipv4Addr, &Relay)>,
    recent: Counters,
    cfg: Config,
    at: u64,
)
    requires
        judged(verdicts, rows, recent, cfg, at),
    ensures
        verdicts.len() == rows.len(),
        forall|i: int|
            0 <= i < rows.len() ==> {
                let r = *rows[i].1;
                &&& (#[trigger] verdicts[i]).state == interface_state(
                    rows[i].0,
                    r,
                    recent,
                    cfg,
                    at,
                )
                &&& r.last_request is None ==> verdicts[i].idle_for is None
                &&& r.last_request matches Some(last) ==> verdicts[i].idle_for matches Some(idle)
                    && idle == (if at >= last {
                    at - last
                } else {
                    0
                })
                &&& verdicts[i].idle_allowed == cfg.per_relay.allowed(
                    rows[i].0,
                    cfg.thresholds.idle_seconds,
                )
            },
{
}

/// Every packet is counted once, as what it is: on its flow, and in its row. A
/// request and a reply are also counted for the interface that they belong to,
/// and TFTP for none.
pub proof fn law_a_packet_is_counted_as_what_it_is(
    before: Watch,
    after: Watch,
    seen: Seen,
    at: u64,
    at_ms: u64,
)
    requires
        observed(before, after, seen, at, at_ms),
    ensures
        ({
            let flow = Flow { src: seen.src, dst: seen.dst, gi: seen.gi };
            let call = match seen.kind {
                Kind::ClientRequest => crate::relays::Call::Request {
                    gi: seen.gi,
                    xid: seen.xid,
                    now: at,
                    now_ms: at_ms,
                },
                Kind::ServerReply => crate::relays::Call::Reply {
                    gi: seen.gi,
                    xid: seen.xid,
                    now: at,
                    now_ms: at_ms,
                },
                Kind::TftpRequest => crate::relays::Call::TftpRequest { now: at },
                Kind::TftpReply => crate::relays::Call::TftpSend { now: at },
            };
            &&& crate::counters::happened(
                before.counts,
                after.counts,
                crate::counters::Event::Packet { kind: seen.kind, flow, at },
            )
            &&& crate::relays::called(before.relays, after.relays, call)
            &&& seen.kind == Kind::ClientRequest ==> crate::counters::happened(
                before.owners,
                after.owners,
                crate::counters::Event::Packet { kind: Kind::ClientRequest, flow, at },
            )
            &&& seen.kind == Kind::ServerReply ==> crate::counters::happened(
                before.owners,
                after.owners,
                crate::counters::Event::Packet {
                    kind: Kind::ServerReply,
                    flow: Flow {
                        src: seen.src,
                        dst: seen.dst,
                        gi: crate::relays::owner_of(
                            before.relays.table(),
                            seen.gi,
                            seen.xid,
                            at_ms,
                        ),
                    },
                    at,
                },
            )
            &&& seen.kind == Kind::TftpRequest || seen.kind == Kind::TftpReply ==> after.owners
                == before.owners
            &&& after.began == before.began
            &&& after.next_report == before.next_report
            &&& after.every == before.every
            &&& after.deadline == before.deadline
            &&& after.adaptation == before.adaptation
            &&& after.traps == before.traps
            &&& after.mails == before.mails
        }),
{
}

/// A report gives the window's counts, the plant's state and its flows as they
/// stand at its moment, changes nothing of what was counted but what the window
/// leaves out, and is told over each channel that is configured exactly when
/// that channel's memory says so; in an adaptation run over none.
pub proof fn law_a_report_gives_what_stands(
    before: Watch,
    after: Watch,
    r: Report,
    cfg: Config,
    at: u64,
)
    requires
        reported(before, after, r, cfg, at),
    ensures
        ({
            let cut = crate::counters::cutoff_at(before.counts.span(), at);
            let all = crate::counters::any_flow();
            let plain = before.adaptation is None;
            let mail = cfg.smtp is Some && !crate::text::blank((cfg.smtp->0).server@)
                && (cfg.smtp->0).to@.len() > 0 && !crate::text::blank((cfg.smtp->0).from@);
            &&& r.window.requests == before.counts.seen(all, Kind::ClientRequest, cut)
            &&& r.window.replies == before.counts.seen(all, Kind::ServerReply, cut)
            &&& r.window.tftp_reads == before.counts.seen(all, Kind::TftpRequest, cut)
            &&& r.window.tftp_sends == before.counts.seen(all, Kind::TftpReply, cut)
            &&& crate::counters::lists_flows(r.flows@, before.counts, cut)
            &&& r.state == crate::alarm::worst_of(r.verdicts@)
            &&& exists|rows: Seq<(Ipv4Addr, &Relay)>| #[trigger]
                crate::relays::lists_rows(rows, before.relays.rows()) && judged(
                    r.verdicts@,
                    rows,
                    before.owners,
                    cfg,
                    at,
                )
            &&& r.tell_traps <==> plain && cfg.snmp.targets@.len() > 0 && before.traps.tells(
                r.state,
                at,
            )
            &&& r.tell_mail <==> plain && mail && before.mails.tells(r.state, at)
            &&& r.tell_traps ==> after.traps.said() == Some((r.state, at)) && !after.traps.owed()
            &&& !r.tell_traps ==> after.traps.said() == before.traps.said()
            &&& r.tell_mail ==> after.mails.said() == Some((r.state, at)) && !after.mails.owed()
            &&& !r.tell_mail ==> after.mails.said() == before.mails.said()
            &&& after.relays == before.relays
            &&& after.began == before.began
            &&& after.deadline == before.deadline
            &&& after.adaptation == before.adaptation
            &&& after.next_report == before.next_report
        }),
{
    assert(r.window.count(Kind::ClientRequest) == r.window.requests);
    assert(r.window.count(Kind::ServerReply) == r.window.replies);
    assert(r.window.count(Kind::TftpRequest) == r.window.tftp_reads);
    assert(r.window.count(Kind::TftpReply) == r.window.tftp_sends);
}

/// A tick does nothing before the next report is due; when it is, the one after
/// it is due `every` seconds on, and there is a line of progress in an
/// adaptation run and a report in any other. The line gives the window's
/// counts.
pub proof fn law_a_tick_reports_when_it_is_due(
    before: Watch,
    after: Watch,
    step: Step,
    cfg: Config,
    at: u64,
)
    requires
        ticked(before, after, step, cfg, at),
        at + before.every <= u64::MAX,
    ensures
        step is Wait <==> at < before.next_report,
        step is Wait ==> after == before,
        step is Progress <==> at >= before.next_report && before.adaptation is Some,
        step is Report <==> at >= before.next_report && before.adaptation is None,
        !(step is Wait) ==> after.next_report == at + before.every,
        after.relays == before.relays,
        after.began == before.began,
        after.every == before.every,
        after.deadline == before.deadline,
        after.adaptation == before.adaptation,
        after.counts.span() == before.counts.span(),
        after.counts.in_all() == before.counts.in_all(),
        forall|want: spec_fn(Flow) -> bool, k: Kind, c: int|
            c >= 0 && c + before.counts.span() >= at ==> #[trigger] after.counts.seen(want, k, c)
                == before.counts.seen(want, k, c),
        step is Progress ==> after.owners == before.owners && after.traps == before.traps
            && after.mails == before.mails,
        step matches Step::Report(r) ==> reported(
            (Watch { next_report: (at + before.every) as u64, ..before }),
            after,
            r,
            cfg,
            at,
        ),
        step matches Step::Progress(line) ==> exists|w: Window|
            {
                let cut = crate::counters::cutoff_at(before.counts.span(), at);
                let all = crate::counters::any_flow();
                &&& w.requests == before.counts.seen(all, Kind::ClientRequest, cut)
                &&& w.replies == before.counts.seen(all, Kind::ServerReply, cut)
                &&& w.tftp_reads == before.counts.seen(all, Kind::TftpRequest, cut)
                &&& line@ == #[trigger] progress_text(w)
            },
{
    if let Step::Progress(line) = step {
        let w = choose|w: Window| #[trigger]
            holds_window(w, before.counts, at) && line@ == progress_text(w);
        assert(w.count(Kind::ClientRequest) == w.requests);
        assert(w.count(Kind::ServerReply) == w.replies);
        assert(w.count(Kind::TftpRequest) == w.tftp_reads);
    }
}

/// There is somewhere to send to exactly when there is a trap receiver, or a
/// mail section that is complete; without either nothing is told and nothing
/// is remembered as told.
pub proof fn law_nobody_configured_is_nobody_told(
    before: Repeats,
    after: Repeats,
    cfg: Config,
    state: State,
    at: u64,
    told: bool,
)
    requires
        asked_to_tell(before, after, has_somewhere(cfg), state, at, told),
    ensures
        ({
            let mail = cfg.smtp is Some && !crate::text::blank((cfg.smtp->0).server@)
                && (cfg.smtp->0).to@.len() > 0 && !crate::text::blank((cfg.smtp->0).from@);
            let somewhere = cfg.snmp.targets@.len() > 0 || mail;
            &&& told <==> somewhere && before.tells(state, at)
            &&& told ==> after.said() == Some((state, at)) && !after.owed()
            &&& !told ==> after.said() == before.said()
            &&& !somewhere ==> after.owed() == before.owed()
            &&& after.interval() == before.interval()
        }),
{
}

/// The larger of two is one of them, and no less than either.
pub proof fn law_at_least_is_the_larger(n: u64, least: u64)
    ensures
        at_least(n, least) >= n,
        at_least(n, least) >= least,
        at_least(n, least) == n || at_least(n, least) == least,
{
}

/// There is room for a packet while its kind's count, and its row, can take one
/// more.
pub proof fn law_there_is_room_while_counts_can_grow(w: Watch, seen: Seen, at_ms: u64, r: bool)
    requires
        call_ensures(Watch::has_room, (&w, &seen, at_ms), r),
    ensures
        ({
            let all = w.counts.in_all();
            let direct = w.relays.direct();
            let most = 18_446_744_073_709_551_615int;
            &&& seen.kind == Kind::ClientRequest ==> (r <==> all.requests < most
                && w.relays.room_for_request(seen.gi))
            &&& seen.kind == Kind::ServerReply ==> (r <==> all.replies < most
                && w.relays.room_for_reply(seen.gi, seen.xid, at_ms))
            &&& seen.kind == Kind::TftpRequest ==> (r <==> all.tftp_reads < most
                && direct.tftp_requests < most)
            &&& seen.kind == Kind::TftpReply ==> (r <==> all.tftp_sends < most && direct.tftp_sends
                < most)
        }),
{
}

/// A run is over when as many seconds have gone since it began as it was given,
/// and never when it was given none.
pub proof fn law_a_run_ends_when_its_time_is_up(w: Watch, now: u64, r: bool)
    requires
        call_ensures(Watch::finished, (&w, now), r),
    ensures
        w.deadline is None ==> !r,
        w.deadline matches Some(secs) ==> (r <==> now >= w.began + secs || secs == 0),
{
}

/// A run starts with nothing counted, reports for the first time after its
/// interval, which is a second at least, and ends after the minutes of the
/// adaptation where it is one.
pub proof fn law_a_run_starts_so(
    cfg: Config,
    began: u64,
    run_for: Option<u64>,
    adaptation: Option<u64>,
    w: Watch,
)
    requires
        began + cfg.report_every < u64::MAX,
        adaptation matches Some(mins) ==> mins * 60 <= u64::MAX,
        call_ensures(Watch::start, (&cfg, began, run_for, adaptation), w),
    ensures
        w.well_formed(),
        w.began == began,
        w.adaptation == adaptation,
        adaptation is None ==> w.deadline == run_for,
        adaptation matches Some(mins) ==> w.deadline is Some && w.deadline->0 == 60 * mins,
        cfg.report_every > 0 ==> w.every == cfg.report_every,
        cfg.report_every == 0 ==> w.every == 1,
        w.next_report == began + w.every,
        cfg.window > 0 ==> w.counts.span() == cfg.window && w.owners.span() == cfg.window,
        w.counts.in_all().requests == 0 && w.counts.in_all().replies == 0
            && w.counts.in_all().tftp_reads == 0 && w.counts.in_all().tftp_sends == 0,
        w.relays.rows() == Map::<u32, Relay>::empty(),
        w.traps.said() is None && !w.traps.owed(),
        w.mails.said() is None && !w.mails.owed(),
        w.traps.interval() == cfg.thresholds.resend_after,
        w.mails.interval() == cfg.thresholds.resend_after,
{
}

/// What became of a trap is said with its receiver, and the state or why it
/// failed.
pub proof fn law_what_became_of_a_trap_is_said(
    target: Target,
    state: State,
    why: &str,
    sent: String,
    failed: String,
)
    requires
        call_ensures(trap_line, (&target, &state, None::<&str>), sent),
        call_ensures(trap_line, (&target, &state, Some(why)), failed),
    ensures
        ({
            let to = target.host@ + ":"@ + crate::text::dec(target.port as nat);
            &&& sent@ == "    trap sent to "@ + to + " — "@ + (match state {
                State::Working => "working"@,
                State::Quiet => "quiet"@,
                State::Unanswered => "unanswered"@,
            })
            &&& failed@ == "    trap to "@ + to + " failed: "@ + why@
        }),
{
    let (host, port) = (target.host@, crate::text::dec(target.port as nat));
    assert(sent@ =~= "    trap sent to "@ + (host + ":"@ + port) + " — "@ + crate::alarm::word_of(
        state,
    ));
    assert(failed@ =~= "    trap to "@ + (host + ":"@ + port) + " failed: "@ + why@);
}

/// What became of a mail is said with its relay, and who got it, or why it
/// failed and what it would have said.
pub proof fn law_what_became_of_a_mail_is_said(
    relay: Smtp,
    subject: &str,
    why: &str,
    sent: String,
    failed: String,
)
    requires
        call_ensures(mail_line, (&relay, subject, None::<&str>), sent),
        call_ensures(mail_line, (&relay, subject, Some(why)), failed),
    ensures
        sent@ == "    mailed "@ + crate::text::joined(crate::text::texts(relay.to@), ", "@)
            + " via "@ + relay.server@,
        failed@ == "    mail via "@ + relay.server@ + " failed: "@ + why@ + " — "@ + subject@,
{
}

/// What is watched is said with its addresses, or that it has none.
pub proof fn law_what_was_found_is_said(name: &str, addresses: Vec<String>, out: String)
    requires
        call_ensures(found, (name, &addresses), out),
    ensures
        addresses@.len() == 0 ==> out@ == "watching "@ + name@ + " ("@
            + "no address of its own"@ + ")"@,
        addresses@.len() > 0 ==> out@ == "watching "@ + name@ + " ("@ + crate::text::joined(
            crate::text::texts(addresses@),
            ", "@,
        ) + ")"@,
{
}

/// Why an interface cannot be watched is said with its name.
pub proof fn law_why_it_cannot_be_watched_is_said(name: &str, wrong: String, refused: String)
    requires
        call_ensures(not_ethernet, (name,), wrong),
        call_ensures(not_allowed, (name,), refused),
    ensures
        wrong@ == name@ + " is not an Ethernet interface, and this reads Ethernet frames"@,
        refused@ == "not allowed to capture on "@ + name@
            + ". A capture socket belongs to root or to a binary with CAP_NET_RAW: either run this as root, or grant it once with `setcap cap_net_raw,cap_net_admin=eip <path to docsis_monitor>`."@,
{
}

/// A run ends with what it saw in all; an adaptation run with what it suggests,
/// for as long as it was to watch.
#[verifier::spinoff_prover]
pub proof fn law_how_a_run_closes(w: Watch, out: Vec<String>)
    requires
        w.adaptation matches Some(mins) ==> mins * 60 <= u64::MAX,
        call_ensures(Watch::closing, (&w,), out),
    ensures
        w.adaptation is None ==> out@.len() == 1 && out@[0]@ == "stopping: "@ + crate::text::dec(
            w.counts.in_all().requests as nat,
        ) + " requests, "@ + crate::text::dec(w.counts.in_all().replies as nat) + " replies, "@
            + crate::text::dec(w.counts.in_all().tftp_reads as nat)
            + " tftp requests seen in all"@,
        w.adaptation matches Some(mins) ==> exists|all: Seq<Suggestion>| #[trigger]
            crate::adapt::suggests(all, w.relays.rows(), (60 * mins) as u64) && crate::text::texts(
                out@,
            ) == suggestions_text(all, w.relays.direct(), (60 * mins) as u64),
{
    let lines = crate::text::texts(out@);
    if w.adaptation is None {
        assert(lines == seq![closing_text(w.counts.in_all())]);
        assert(lines.len() == 1);
        assert(lines[0] == out@[0]@);
    } else {
        let mins = w.adaptation->0;
        let secs = (mins * 60) as u64;
        assert(secs == (60 * mins) as u64);
        let all = choose|all: Seq<Suggestion>| #[trigger]
            crate::adapt::suggests(all, w.relays.rows(), secs) && lines == suggestions_text(
                all,
                w.relays.direct(),
                secs,
            );
        assert(crate::adapt::suggests(all, w.relays.rows(), secs));
    }
}

/// An interface that is found is the first of its name, and one that is not is
/// said to be missing, with all that are there.
pub proof fn law_a_missing_interface_is_named(
    want: &str,
    names: Vec<String>,
    r: Result<usize, String>,
)
    requires
        call_ensures(find, (want, &names), r),
    ensures
        r matches Ok(i) ==> i < names@.len() && names@[i as int]@ == want@,
        forall|j: int|
            0 <= j < names@.len() && (#[trigger] names@[j])@ == want@ ==> r is Ok && r->Ok_0 <= j,
        r matches Err(why) ==> why@ == "this host has no interface called "@ + want@
            + ". It has: "@ + crate::text::joined(crate::text::texts(names@), ", "@),
{
}

} // verus!
