//! Working out what "idle" means on a plant nobody has measured.
//!
//! An idle threshold is a claim about a CMTS interface. Guessing it produces
//! a monitor that cries wolf, or one that says nothing; so a plant is watched
//! for a while, and every interface gets a threshold with room above the
//! longest silence seen, and the evidence beside it.

use vstd::prelude::*;

use crate::addr::Ipv4Addr;
use crate::config::{PerRelay, RelayThreshold};
use crate::relays::{Relay, Relays};
use crate::text::{push_dec, push_joined};

verus! {

/// The smallest threshold worth suggesting, in seconds.
pub const FLOOR: u64 = 300;

/// The largest: a day.
pub const CEILING: u64 = 86_400;

/// How much room a suggestion leaves above the worst gap seen.
pub const HEADROOM: u64 = 3;

/// What was measured for one interface, and what it suggests.
#[derive(Clone, Debug, PartialEq, Eq)]
pub struct Suggestion {
    pub gi: Ipv4Addr,
    pub requests: u64,
    /// Seconds between the first packet seen from here and the last.
    pub span: u64,
    pub longest_gap: u64,
    /// The suggested `idle_seconds`, or None when the window saw too little
    /// to say anything honest.
    pub idle_seconds: Option<u64>,
    /// Why, in one line, for the log.
    pub because: String,
}

/// A duration in whole minutes, rounded, or in seconds when that reads better.
pub open spec fn minutes_text(s: u64) -> Seq<char> {
    if s <= 90 {
        crate::text::dec(s as nat) + "s"@
    } else {
        crate::text::dec(((s + 30) / 60) as nat) + "m"@
    }
}

/// A duration in minutes and seconds, or in seconds when that reads better.
pub open spec fn secs_text(s: u64) -> Seq<char> {
    if s <= 90 {
        crate::text::dec(s as nat) + "s"@
    } else {
        crate::text::dec((s / 60) as nat) + "m"@ + crate::text::dec((s % 60) as nat) + "s"@
    }
}

/// The threshold for an interface, in seconds: three times its longest
/// silence, between the floor and the ceiling. One request is a data point
/// and not an interval, and suggests nothing.
pub open spec fn suggested(requests: u64, longest_gap: u64) -> Option<u64> {
    if requests < 2 {
        None
    } else if longest_gap * HEADROOM < FLOOR {
        Some(FLOOR)
    } else if longest_gap * HEADROOM > CEILING {
        Some(CEILING)
    } else {
        Some((longest_gap * HEADROOM) as u64)
    }
}

/// The longer of two durations.
pub open spec fn longer(a: u64, b: u64) -> u64 {
    if a >= b {
        a
    } else {
        b
    }
}

/// What was seen: how many requests, in how long, and the longest silence.
pub open spec fn evidence(requests: u64, seen_for: u64, longest_gap: u64) -> Seq<char> {
    crate::text::dec(requests as nat) + " requests in "@ + minutes_text(seen_for)
        + ", longest silence "@ + secs_text(longest_gap)
}

/// The sentence that justifies a suggestion, or the lack of one.
pub open spec fn reason(requests: u64, span: u64, longest_gap: u64, watched_for: u64) -> Seq<char> {
    if requests == 0 {
        "nothing arrived. Either this interface is idle or it is already broken, and one hour of silence cannot tell the difference"@
    } else if requests == 1 {
        "only 1 request in "@ + minutes_text(watched_for)
            + ". Watch for longer: a threshold needs at least two, to have a gap between them"@
    } else if longest_gap * HEADROOM < FLOOR {
        evidence(requests, longer(span, watched_for), longest_gap)
            + "; 3 times that is still under the "@ + secs_text(FLOOR) + " floor"@
    } else if longest_gap * HEADROOM > CEILING {
        evidence(requests, longer(span, watched_for), longest_gap)
            + " — longer than a day with room above it. Capped; this interface may be too quiet to watch this way"@
    } else {
        evidence(requests, longer(span, watched_for), longest_gap) + ", times 3 for room"@
    }
}

/// When the last packet of a row came, request or reply.
pub open spec fn last_packet(r: Relay) -> Option<u64> {
    match (r.last_request, r.last_reply) {
        (Some(a), Some(b)) => Some(longer(a, b)),
        (Some(a), None) => Some(a),
        (None, last) => last,
    }
}

/// Seconds between the first packet of a row and the last.
pub open spec fn span_of(r: Relay) -> u64 {
    match last_packet(r) {
        Some(last) => if last > r.first_seen {
            (last - r.first_seen) as u64
        } else {
            0
        },
        None => 0,
    }
}

impl Suggestion {
    /// Whether this is what a row suggests after having been watched for so
    /// many seconds.
    pub open spec fn is_for(&self, r: Relay, watched_for: u64) -> bool {
        &&& self.requests == r.requests
        &&& self.span == span_of(r)
        &&& self.longest_gap == r.longest_gap
        &&& self.idle_seconds == suggested(r.requests, r.longest_gap)
        &&& self.because@ == reason(r.requests, span_of(r), r.longest_gap, watched_for)
    }
}

/// Whether a list holds exactly one suggestion for each row, in the order of
/// their addresses.
pub open spec fn suggests(
    out: Seq<Suggestion>,
    rows: Map<u32, Relay>,
    watched_for: u64,
) -> bool {
    &&& forall|i: int, j: int|
        0 <= i < j < out.len() ==> (#[trigger] out[i]).gi.bits < (#[trigger] out[j]).gi.bits
    &&& forall|i: int|
        0 <= i < out.len() ==> rows.contains_key((#[trigger] out[i]).gi.bits) && out[i].is_for(
            rows[out[i].gi.bits],
            watched_for,
        )
    &&& forall|g: u32| #[trigger]
        rows.contains_key(g) ==> exists|i: int|
            0 <= i < out.len() && (#[trigger] out[i]).gi.bits == g
}

fn push_minutes(out: &mut String, s: u64)
    ensures
        final(out)@ == old(out)@ + minutes_text(s),
{
    if s <= 90 {
        push_dec(out, s);
        out.append("s");
    } else {
        // Rounded to the nearest minute.
        let up: u64 = if s % 60 >= 30 {
            1
        } else {
            0
        };
        assert(s / 60 + up == (s + 30) / 60);
        push_dec(out, s / 60 + up);
        out.append("m");
    }
    assert(out@ =~= old(out)@ + minutes_text(s));
}

fn push_secs(out: &mut String, s: u64)
    ensures
        final(out)@ == old(out)@ + secs_text(s),
{
    if s <= 90 {
        push_dec(out, s);
        out.append("s");
    } else {
        push_dec(out, s / 60);
        out.append("m");
        push_dec(out, s % 60);
        out.append("s");
    }
    assert(out@ =~= old(out)@ + secs_text(s));
}

/// A duration in whole minutes, or seconds when that reads better.
pub fn minutes(s: u64) -> (out: String)
    ensures
        out@ == minutes_text(s),
{
    let mut out = String::new();
    push_minutes(&mut out, s);
    assert(out@ =~= minutes_text(s));
    out
}

/// A duration in minutes and seconds, or seconds when that reads better.
pub fn secs(s: u64) -> (out: String)
    ensures
        out@ == secs_text(s),
{
    let mut out = String::new();
    push_secs(&mut out, s);
    assert(out@ =~= secs_text(s));
    out
}

/// The suggestion, and the sentence that justifies it.
pub fn judge(requests: u64, span: u64, longest_gap: u64, watched_for: u64) -> (r: (
    Option<u64>,
    String,
))
    ensures
        r.0 == suggested(requests, longest_gap),
        r.1@ == reason(requests, span, longest_gap, watched_for),
{
    // Nothing at all. It may be dead, it may be idle, and this cannot tell.
    if requests == 0 {
        return (
            None,
            "nothing arrived. Either this interface is idle or it is already broken, and one hour of silence cannot tell the difference".to_owned(),
        );
    }
    // One request is a data point, not an interval.
    if requests < 2 {
        let mut why = "only 1 request in ".to_owned();
        push_minutes(&mut why, watched_for);
        why.append(
            ". Watch for longer: a threshold needs at least two, to have a gap between them",
        );
        return (None, why);
    }
    let mut why = String::new();
    push_dec(&mut why, requests);
    why.append(" requests in ");
    let seen_for: u64 = if span >= watched_for {
        span
    } else {
        watched_for
    };
    push_minutes(&mut why, seen_for);
    why.append(", longest silence ");
    push_secs(&mut why, longest_gap);
    assert(why@ =~= evidence(requests, seen_for, longest_gap));
    assert(longest_gap * HEADROOM <= 3 * u64::MAX) by (nonlinear_arith)
        requires
            HEADROOM == 3,
    ;
    let roomy: u128 = longest_gap as u128 * HEADROOM as u128;
    if roomy < FLOOR as u128 {
        // The floor, and why it applied: the arithmetic.
        why.append("; 3 times that is still under the ");
        push_secs(&mut why, FLOOR);
        why.append(" floor");
        (Some(FLOOR), why)
    } else if roomy > CEILING as u128 {
        why.append(
            " — longer than a day with room above it. Capped; this interface may be too quiet to watch this way",
        );
        (Some(CEILING), why)
    } else {
        why.append(", times 3 for room");
        (Some(roomy as u64), why)
    }
}

/// Turns what was watched into a suggestion per interface.
pub fn suggest(relays: &Relays, watched_for: u64) -> (out: Vec<Suggestion>)
    ensures
        suggests(out@, relays.rows(), watched_for),
{
    let rows = relays.each();
    let mut out: Vec<Suggestion> = Vec::new();
    let mut i: usize = 0;
    while i < rows.len()
        invariant
            i <= rows@.len(),
            crate::relays::lists_rows(rows@, relays.rows()),
            out@.len() == i,
            forall|j: int| 0 <= j < i ==> (#[trigger] out@[j]).gi == rows@[j].0,
            forall|j: int| 0 <= j < i ==> (#[trigger] out@[j]).is_for(*rows@[j].1, watched_for),
        decreases rows@.len() - i,
    {
        let (gi, r) = rows[i];
        let last: Option<u64> = match (r.last_request, r.last_reply) {
            (Some(a), Some(b)) => if a >= b {
                Some(a)
            } else {
                Some(b)
            },
            (Some(a), None) => Some(a),
            (None, last) => last,
        };
        let span: u64 = match last {
            Some(last) => last.saturating_sub(r.first_seen),
            None => 0,
        };
        let (idle_seconds, because) = judge(r.requests, span, r.longest_gap, watched_for);
        out.push(
            Suggestion {
                gi,
                requests: r.requests,
                span,
                longest_gap: r.longest_gap,
                idle_seconds,
                because,
            },
        );
        i = i + 1;
    }
    proof {
        let rs = relays.rows();
        assert forall|a: int, b: int| 0 <= a < b < out@.len() implies (#[trigger] out@[a]).gi.bits
            < (#[trigger] out@[b]).gi.bits by {
            assert(rows@[a].0.bits < rows@[b].0.bits);
        }
        assert forall|a: int| 0 <= a < out@.len() implies rs.contains_key(
            (#[trigger] out@[a]).gi.bits,
        ) && out@[a].is_for(rs[out@[a].gi.bits], watched_for) by {
            assert(rs.contains_key(rows@[a].0.bits));
        }
        assert forall|g: u32| #[trigger] rs.contains_key(g) implies exists|a: int|
            0 <= a < out@.len() && (#[trigger] out@[a]).gi.bits == g by {
            let a = choose|a: int| 0 <= a < rows@.len() && (#[trigger] rows@[a]).0.bits == g;
            assert(out@[a].gi.bits == g);
        }
    }
    out
}

/// One line of the block: an address and its threshold.
pub open spec fn config_line(gi: Ipv4Addr, idle_seconds: u64) -> Seq<char> {
    "    \""@ + gi.dotted() + "\": { \"idle_seconds\": "@ + crate::text::dec(idle_seconds as nat)
        + " }"@
}

/// The lines of the block: one for each interface with a suggestion, in order.
pub open spec fn config_lines(all: Seq<Suggestion>) -> Seq<Seq<char>>
    decreases all.len(),
{
    if all.len() == 0 {
        Seq::empty()
    } else {
        let earlier = config_lines(all.drop_last());
        match all.last().idle_seconds {
            Some(n) => earlier.push(config_line(all.last().gi, n)),
            None => earlier,
        }
    }
}

/// The block to paste into the configuration.
pub open spec fn config_block(all: Seq<Suggestion>) -> Seq<char> {
    if config_lines(all).len() == 0 {
        "  (nothing to suggest: no interface relayed enough to measure)"@
    } else {
        "  \"per_relay\": {\n"@ + crate::text::joined(config_lines(all), ",\n"@) + "\n  }"@
    }
}

/// The block to paste into the configuration.
pub fn as_config(all: &[Suggestion]) -> (out: String)
    ensures
        out@ == config_block(all@),
{
    let mut lines: Vec<String> = Vec::new();
    let mut i: usize = 0;
    while i < all.len()
        invariant
            i <= all@.len(),
            crate::text::texts(lines@) == config_lines(all@.take(i as int)),
        decreases all@.len() - i,
    {
        let ghost upto = all@.take(i as int);
        let ghost next = all@.take(i + 1);
        assert(next.drop_last() =~= upto);
        assert(next.last() == all@[i as int]);
        if let Some(n) = all[i].idle_seconds {
            let mut line = "    \"".to_owned();
            all[i].gi.push_to(&mut line);
            line.append("\": { \"idle_seconds\": ");
            push_dec(&mut line, n);
            line.append(" }");
            let ghost so_far = lines@;
            lines.push(line);
            assert(crate::text::texts(lines@) =~= crate::text::texts(so_far).push(line@));
        }
        i = i + 1;
    }
    assert(all@.take(all@.len() as int) =~= all@);
    if lines.len() == 0 {
        return "  (nothing to suggest: no interface relayed enough to measure)".to_owned();
    }
    let mut out = "  \"per_relay\": {\n".to_owned();
    push_joined(&mut out, &lines, ",\n");
    out.append("\n  }");
    out
}

// What holds of every suggestion.

/// A suggestion lies between five minutes and a day. It leaves three times
/// the longest silence, unless a day is less, and nothing is suggested for an
/// interface that sent fewer than two requests.
pub proof fn law_a_suggestion_leaves_room(requests: u64, longest_gap: u64)
    ensures
        suggested(requests, longest_gap) is None <==> requests < 2,
        suggested(requests, longest_gap) matches Some(n) ==> {
            &&& FLOOR <= n <= CEILING
            &&& longest_gap * HEADROOM <= n || n == CEILING
        },
{
}

/// A longer silence never suggests a shorter threshold.
pub proof fn law_a_longer_silence_never_shortens(requests: u64, gap: u64, longer_gap: u64)
    requires
        requests >= 2,
        gap <= longer_gap,
    ensures
        suggested(requests, gap)->0 <= suggested(requests, longer_gap)->0,
{
}

/// An interface without a suggestion does not appear in the block: every line
/// is that of an interface with one.
pub proof fn law_only_suggestions_are_pasted(all: Seq<Suggestion>, j: int)
    requires
        0 <= j < config_lines(all).len(),
    ensures
        exists|i: int|
            0 <= i < all.len() && (#[trigger] all[i]).idle_seconds is Some && config_lines(all)[j]
                == config_line(all[i].gi, all[i].idle_seconds->0),
    decreases all.len(),
{
    let last = all[all.len() - 1];
    if last.idle_seconds is Some && j == config_lines(all).len() - 1 {
        assert(config_lines(all)[j] == config_line(last.gi, last.idle_seconds->0));
    } else {
        let less = all.drop_last();
        law_only_suggestions_are_pasted(less, j);
        let i = choose|i: int|
            0 <= i < less.len() && (#[trigger] less[i]).idle_seconds is Some && config_lines(
                less,
            )[j] == config_line(less[i].gi, less[i].idle_seconds->0);
        assert(all[i] == less[i]);
    }
}

/// Every interface with a suggestion has its line in the block.
pub proof fn law_every_suggestion_is_pasted(all: Seq<Suggestion>, i: int)
    requires
        0 <= i < all.len(),
        all[i].idle_seconds is Some,
    ensures
        config_lines(all).contains(config_line(all[i].gi, all[i].idle_seconds->0)),
    decreases all.len(),
{
    let line = config_line(all[i].gi, all[i].idle_seconds->0);
    if i == all.len() - 1 {
        assert(config_lines(all).last() == line);
    } else {
        let less = all.drop_last();
        assert(less[i] == all[i]);
        law_every_suggestion_is_pasted(less, i);
        let j = choose|j: int| 0 <= j < config_lines(less).len() && config_lines(less)[j] == line;
        assert(config_lines(all)[j] == line);
    }
}

// The block read back.

/// The interfaces with a suggestion, and what is suggested for each.
pub open spec fn chosen(all: Seq<Suggestion>) -> Seq<(Ipv4Addr, u64)>
    decreases all.len(),
{
    if all.len() == 0 {
        Seq::empty()
    } else {
        let earlier = chosen(all.drop_last());
        match all.last().idle_seconds {
            Some(n) => earlier.push((all.last().gi, n)),
            None => earlier,
        }
    }
}

/// The names and numbers that these are written as.
pub open spec fn written(chosen: Seq<(Ipv4Addr, u64)>) -> Seq<(Seq<char>, nat)> {
    Seq::new(chosen.len(), |i: int| (chosen[i].0.dotted(), chosen[i].1 as nat))
}

spec fn lines_for(chosen: Seq<(Ipv4Addr, u64)>) -> Seq<Seq<char>> {
    Seq::new(chosen.len(), |i: int| config_line(chosen[i].0, chosen[i].1))
}

proof fn lemma_lines_are_the_chosen(all: Seq<Suggestion>)
    ensures
        config_lines(all) == lines_for(chosen(all)),
    decreases all.len(),
{
    if all.len() > 0 {
        lemma_lines_are_the_chosen(all.drop_last());
    }
    assert(config_lines(all) =~= lines_for(chosen(all)));
}

/// Exactly the interfaces with a suggestion are chosen.
proof fn lemma_chosen(all: Seq<Suggestion>, x: (Ipv4Addr, u64))
    ensures
        chosen(all).contains(x) <==> exists|i: int|
            0 <= i < all.len() && (#[trigger] all[i]).gi == x.0 && all[i].idle_seconds == Some(x.1),
    decreases all.len(),
{
    if all.len() > 0 {
        let less = all.drop_last();
        lemma_chosen(less, x);
        let last = all[all.len() - 1];
        if chosen(less).contains(x) {
            let j = choose|j: int| 0 <= j < chosen(less).len() && chosen(less)[j] == x;
            assert(chosen(all)[j] == x);
            let i = choose|i: int|
                0 <= i < less.len() && (#[trigger] less[i]).gi == x.0 && less[i].idle_seconds
                    == Some(x.1);
            assert(all[i].gi == x.0);
        }
        if last.gi == x.0 && last.idle_seconds == Some(x.1) {
            assert(chosen(all).last() == x);
        }
        if chosen(all).contains(x) && !chosen(less).contains(x) {
            let j = choose|j: int| 0 <= j < chosen(all).len() && chosen(all)[j] == x;
            if j < chosen(less).len() {
                assert(chosen(less)[j] == x);
            }
        }
        if exists|i: int|
            0 <= i < all.len() && (#[trigger] all[i]).gi == x.0 && all[i].idle_seconds == Some(
                x.1,
            ) {
            let i = choose|i: int|
                0 <= i < all.len() && (#[trigger] all[i]).gi == x.0 && all[i].idle_seconds == Some(
                    x.1,
                );
            if i < less.len() {
                assert(less[i].gi == x.0);
            }
        }
    }
}

/// The pieces that one line is made of.
spec fn line_tokens(gi: Ipv4Addr, n: u64) -> Seq<crate::json::Token> {
    seq![
        crate::json::Token::Name(gi.dotted()),
        crate::json::Token::Colon,
        crate::json::Token::Open,
        crate::json::Token::Name("idle_seconds"@),
        crate::json::Token::Colon,
        crate::json::Token::Number(n as nat),
        crate::json::Token::Close,
    ]
}

/// Pieces and those that follow them, when they can be read.
spec fn ahead(
    pieces: Seq<crate::json::Token>,
    rest: Option<Seq<crate::json::Token>>,
) -> Option<Seq<crate::json::Token>> {
    match rest {
        Some(more) => Some(pieces + more),
        None => None,
    }
}

proof fn lemma_dotted_is_plain(gi: Ipv4Addr)
    ensures
        forall|i: int|
            0 <= i < gi.dotted().len() ==> crate::json::is_plain(#[trigger] gi.dotted()[i]),
{
    reveal_strlit(".");
    let p = gi.parts();
    lemma_dec_is_plain(p.0);
    lemma_dec_is_plain(p.1);
    lemma_dec_is_plain(p.2);
    lemma_dec_is_plain(p.3);
    assert forall|i: int| 0 <= i < "."@.len() implies crate::json::is_plain(
        #[trigger] "."@[i],
    ) by {}
    let a = crate::text::dec(p.0) + "."@ + crate::text::dec(p.1);
    lemma_plain_together(crate::text::dec(p.0), "."@);
    lemma_plain_together(crate::text::dec(p.0) + "."@, crate::text::dec(p.1));
    lemma_plain_together(a, "."@);
    lemma_plain_together(a + "."@, crate::text::dec(p.2));
    lemma_plain_together(a + "."@ + crate::text::dec(p.2), "."@);
    lemma_plain_together(a + "."@ + crate::text::dec(p.2) + "."@, crate::text::dec(p.3));
}

proof fn lemma_dec_is_plain(n: nat)
    ensures
        forall|i: int|
            0 <= i < crate::text::dec(n).len() ==> crate::json::is_plain(
                #[trigger] crate::text::dec(n)[i],
            ),
{
    crate::ratio::lemma_dec_reads_back(n);
    assert forall|i: int| 0 <= i < crate::text::dec(n).len() implies crate::json::is_plain(
        #[trigger] crate::text::dec(n)[i],
    ) by {
        assert(crate::ratio::is_digit(crate::text::dec(n)[i]));
    }
}

proof fn lemma_plain_together(a: Seq<char>, b: Seq<char>)
    requires
        forall|i: int| 0 <= i < a.len() ==> crate::json::is_plain(#[trigger] a[i]),
        forall|i: int| 0 <= i < b.len() ==> crate::json::is_plain(#[trigger] b[i]),
    ensures
        forall|i: int| 0 <= i < (a + b).len() ==> crate::json::is_plain(#[trigger] (a + b)[i]),
{
    assert forall|i: int| 0 <= i < (a + b).len() implies crate::json::is_plain(
        #[trigger] (a + b)[i],
    ) by {
        if i < a.len() {
            assert((a + b)[i] == a[i]);
        } else {
            assert((a + b)[i] == b[i - a.len()]);
        }
    }
}

/// A line is read as its pieces.
proof fn lemma_line_reads(gi: Ipv4Addr, n: u64, tail: Seq<char>)
    ensures
        crate::json::tokens(config_line(gi, n) + tail) == ahead(
            line_tokens(gi, n),
            crate::json::tokens(tail),
        ),
{
    reveal_strlit("    \"");
    reveal_strlit("\": { \"idle_seconds\": ");
    reveal_strlit("idle_seconds");
    reveal_strlit(" }");
    let key = "idle_seconds"@;
    // Piece by piece, from the end.
    let close = seq!['}'] + tail;
    let after = seq![' '] + close;
    crate::json::lemma_mark('}', tail);
    crate::json::lemma_space(' ', close);
    let number = crate::text::dec(n as nat) + after;
    crate::json::lemma_number(n as nat, after);
    let colon_space = seq![' '] + number;
    let colon = seq![':'] + colon_space;
    crate::json::lemma_space(' ', number);
    crate::json::lemma_mark(':', colon_space);
    let quoted = seq!['"'] + (key + (seq!['"'] + colon));
    assert forall|i: int| 0 <= i < key.len() implies crate::json::is_plain(#[trigger] key[i]) by {}
    crate::json::lemma_name(key, colon);
    let open_space = seq![' '] + quoted;
    let open = seq!['{'] + open_space;
    let first_space = seq![' '] + open;
    let first = seq![':'] + first_space;
    crate::json::lemma_space(' ', quoted);
    crate::json::lemma_mark('{', open_space);
    crate::json::lemma_space(' ', open);
    crate::json::lemma_mark(':', first_space);
    let named = seq!['"'] + (gi.dotted() + (seq!['"'] + first));
    lemma_dotted_is_plain(gi);
    crate::json::lemma_name(gi.dotted(), first);
    let one = seq![' '] + named;
    let two = seq![' '] + one;
    let three = seq![' '] + two;
    let four = seq![' '] + three;
    crate::json::lemma_space(' ', named);
    crate::json::lemma_space(' ', one);
    crate::json::lemma_space(' ', two);
    crate::json::lemma_space(' ', three);
    lemma_line_pieces(gi.dotted(), crate::text::dec(n as nat), tail);
    assert(config_line(gi, n) + tail == four);
    if crate::json::tokens(tail) is Some {
        assert(crate::json::tokens(four)->0 =~= line_tokens(gi, n) + crate::json::tokens(tail)->0);
    }
}

/// The characters of a line, grouped as its pieces are read.
proof fn lemma_line_pieces(name: Seq<char>, number: Seq<char>, tail: Seq<char>)
    ensures
        "    \""@ + name + "\": { \"idle_seconds\": "@ + number + " }"@ + tail == seq![' '] + (
        seq![' '] + (seq![' '] + (seq![' '] + (seq!['"'] + (name + (seq!['"'] + (seq![':'] + (
        seq![' '] + (seq!['{'] + (seq![' '] + (seq!['"'] + ("idle_seconds"@ + (seq!['"'] + (
        seq![':'] + (seq![' '] + (number + (seq![' '] + (seq!['}'] + tail)))))))))))))))))),
{
    reveal_strlit("    \"");
    reveal_strlit("\": { \"idle_seconds\": ");
    reveal_strlit("idle_seconds");
    reveal_strlit(" }");
    let end = seq![' '] + (seq!['}'] + tail);
    assert(" }"@ + tail =~= end);
    let back = number + end;
    let mid = seq!['"'] + (seq![':'] + (seq![' '] + (seq!['{'] + (seq![' '] + (seq!['"'] + (
    "idle_seconds"@ + (seq!['"'] + (seq![':'] + (seq![' '] + back)))))))));
    assert("\": { \"idle_seconds\": "@ + back =~= mid);
    let front = seq![' '] + (seq![' '] + (seq![' '] + (seq![' '] + (seq!['"'] + (name + mid)))));
    assert("    \""@ + (name + mid) =~= front);
    let (a, b, c) = ("    \""@, "\": { \"idle_seconds\": "@, " }"@);
    assert(a + name + b + number + c + tail =~= a + (name + (b + (number + (c + tail)))));
}

/// Lines with commas between them are read as their pieces.
spec fn all_tokens(chosen: Seq<(Ipv4Addr, u64)>) -> Seq<crate::json::Token>
    decreases chosen.len(),
{
    if chosen.len() == 0 {
        Seq::empty()
    } else if chosen.len() == 1 {
        line_tokens(chosen[0].0, chosen[0].1)
    } else {
        line_tokens(chosen[0].0, chosen[0].1) + (seq![crate::json::Token::Comma] + all_tokens(
            chosen.skip(1),
        ))
    }
}

proof fn lemma_lines_read(chosen: Seq<(Ipv4Addr, u64)>, tail: Seq<char>)
    requires
        chosen.len() > 0,
    ensures
        crate::json::tokens(crate::text::joined(lines_for(chosen), ",\n"@) + tail) == ahead(
            all_tokens(chosen),
            crate::json::tokens(tail),
        ),
    decreases chosen.len(),
{
    let lines = lines_for(chosen);
    let (gi, n) = chosen[0];
    assert(lines[0] == config_line(gi, n));
    if chosen.len() == 1 {
        lemma_line_reads(gi, n, tail);
    } else {
        reveal_strlit(",\n");
        let rest = chosen.skip(1);
        crate::text::lemma_joined_from_the_front(lines, ",\n"@);
        assert(lines.skip(1) =~= lines_for(rest));
        let behind = crate::text::joined(lines_for(rest), ",\n"@) + tail;
        let feed = seq!['\n'] + behind;
        let comma = seq![','] + feed;
        lemma_lines_read(rest, tail);
        crate::json::lemma_space('\n', behind);
        crate::json::lemma_mark(',', feed);
        lemma_line_reads(gi, n, comma);
        assert(crate::text::joined(lines, ",\n"@) + tail =~= config_line(gi, n) + comma);
        if crate::json::tokens(tail) is Some {
            assert(crate::json::tokens(config_line(gi, n) + comma)->0 =~= all_tokens(chosen)
                + crate::json::tokens(tail)->0);
        }
    }
}

/// The pieces of lines are read as what the lines were written from.
proof fn lemma_thresholds_read(chosen: Seq<(Ipv4Addr, u64)>, rest: Seq<crate::json::Token>)
    requires
        chosen.len() > 0,
        rest.len() > 0,
        rest[0] != crate::json::Token::Comma,
    ensures
        crate::json::read_thresholds(all_tokens(chosen) + rest) == Some((written(chosen), rest)),
    decreases chosen.len(),
{
    let t = all_tokens(chosen) + rest;
    let (gi, n) = chosen[0];
    let line = line_tokens(gi, n);
    assert forall|i: int| 0 <= i < 7 implies #[trigger] t[i] == line[i] by {}
    assert(t[0] == line[0] && t[1] == line[1] && t[2] == line[2] && t[3] == line[3] && t[4]
        == line[4] && t[5] == line[5] && t[6] == line[6]);
    assert(crate::json::read_threshold(t) == Some((gi.dotted(), n as nat)));
    if chosen.len() == 1 {
        assert(t[7] == rest[0]);
        assert(t.skip(7) =~= rest);
        assert(written(chosen) =~= seq![(gi.dotted(), n as nat)]);
    } else {
        let others = chosen.skip(1);
        lemma_thresholds_read(others, rest);
        assert(t[7] == crate::json::Token::Comma);
        assert(t.skip(8) =~= all_tokens(others) + rest);
        assert(written(chosen) =~= seq![(gi.dotted(), n as nat)] + written(others));
    }
}

/// The block can be pasted: between braces it is a JSON object with a
/// `per_relay` section and nothing else, and the section reads back as the
/// interfaces with a suggestion, each with its number. Without any there is no
/// block.
pub proof fn law_the_block_reads_back(all: Seq<Suggestion>)
    ensures
        if chosen(all).len() > 0 {
            crate::json::read_per_relay("{"@ + config_block(all) + "}"@) == Some(
                written(chosen(all)),
            )
        } else {
            config_block(all) == "  (nothing to suggest: no interface relayed enough to measure)"@
        },
        chosen(all).len() == 0 <==> forall|i: int|
            0 <= i < all.len() ==> (#[trigger] all[i]).idle_seconds is None,
{
    lemma_lines_are_the_chosen(all);
    let es = chosen(all);
    lemma_chosen_none(all);
    if es.len() > 0 {
        reveal_strlit("{");
        reveal_strlit("}");
        reveal_strlit("  \"per_relay\": {\n");
        reveal_strlit("per_relay");
        reveal_strlit("\n  }");
        let none = Seq::<char>::empty();
        let outer = seq!['}'] + none;
        let inner = seq!['}'] + outer;
        let one = seq![' '] + inner;
        let two = seq![' '] + one;
        let tail = seq!['\n'] + two;
        assert(crate::json::tokens(none) == Some(Seq::<crate::json::Token>::empty())) by {
            reveal(crate::json::tokens);
        }
        crate::json::lemma_mark('}', none);
        crate::json::lemma_mark('}', outer);
        crate::json::lemma_space(' ', inner);
        crate::json::lemma_space(' ', one);
        crate::json::lemma_space('\n', two);
        let end = seq![crate::json::Token::Close, crate::json::Token::Close];
        assert(crate::json::tokens(tail)->0 =~= end);

        let lines = crate::text::joined(lines_for(es), ",\n"@);
        let body = lines + tail;
        lemma_lines_read(es, tail);
        lemma_thresholds_read(es, end);

        let key = "per_relay"@;
        let feed = seq!['\n'] + body;
        let open = seq!['{'] + feed;
        let space = seq![' '] + open;
        let colon = seq![':'] + space;
        let name = seq!['"'] + (key + (seq!['"'] + colon));
        let three = seq![' '] + name;
        let four = seq![' '] + three;
        let whole = seq!['{'] + four;
        crate::json::lemma_space('\n', body);
        crate::json::lemma_mark('{', feed);
        crate::json::lemma_space(' ', open);
        crate::json::lemma_mark(':', space);
        assert forall|i: int| 0 <= i < key.len() implies crate::json::is_plain(
            #[trigger] key[i],
        ) by {}
        crate::json::lemma_name(key, colon);
        crate::json::lemma_space(' ', name);
        crate::json::lemma_space(' ', three);
        crate::json::lemma_mark('{', four);
        lemma_block_pieces(lines);
        assert("{"@ + config_block(all) + "}"@ == whole);

        let t = crate::json::tokens(whole)->0;
        let opening = seq![
            crate::json::Token::Open,
            crate::json::Token::Name(key),
            crate::json::Token::Colon,
            crate::json::Token::Open,
        ];
        assert(t =~= opening + (all_tokens(es) + end));
        assert(t.skip(4) =~= all_tokens(es) + end);
        lemma_all_tokens_start(es);
        assert(t.skip(4)[0] != end[0]);
    }
}

proof fn lemma_all_tokens_start(chosen: Seq<(Ipv4Addr, u64)>)
    requires
        chosen.len() > 0,
    ensures
        all_tokens(chosen).len() >= 7,
        all_tokens(chosen)[0] is Name,
{
}

proof fn lemma_chosen_none(all: Seq<Suggestion>)
    ensures
        chosen(all).len() == 0 <==> forall|i: int|
            0 <= i < all.len() ==> (#[trigger] all[i]).idle_seconds is None,
    decreases all.len(),
{
    if all.len() > 0 {
        let less = all.drop_last();
        lemma_chosen_none(less);
        assert(all[all.len() - 1] == all.last());
        if chosen(all).len() == 0 {
            assert forall|i: int| 0 <= i < all.len() implies (#[trigger] all[i]).idle_seconds
                is None by {
                if i < less.len() {
                    assert(less[i] == all[i]);
                }
            }
        } else if forall|i: int| 0 <= i < all.len() ==> (#[trigger] all[i]).idle_seconds is None {
            assert forall|i: int| 0 <= i < less.len() implies (#[trigger] less[i]).idle_seconds
                is None by {
                assert(less[i] == all[i]);
            }
        }
    }
}

/// The characters of a block between braces, grouped as its pieces are read.
proof fn lemma_block_pieces(lines: Seq<char>)
    ensures
        "{"@ + ("  \"per_relay\": {\n"@ + lines + "\n  }"@) + "}"@ == seq!['{'] + (seq![' '] + (
        seq![' '] + (seq!['"'] + ("per_relay"@ + (seq!['"'] + (seq![':'] + (seq![' '] + (seq!['{']
            + (seq!['\n'] + (lines + (seq!['\n'] + (seq![' '] + (seq![' '] + (seq!['}'] + (
        seq!['}'] + Seq::<char>::empty()))))))))))))))),
{
    reveal_strlit("{");
    reveal_strlit("}");
    reveal_strlit("  \"per_relay\": {\n");
    reveal_strlit("per_relay");
    reveal_strlit("\n  }");
    let tail = seq!['\n'] + (seq![' '] + (seq![' '] + (seq!['}'] + (seq!['}']
        + Seq::<char>::empty()))));
    assert("\n  }"@ + "}"@ =~= tail);
    let body = lines + tail;
    let front = seq!['{'] + (seq![' '] + (seq![' '] + (seq!['"'] + ("per_relay"@ + (seq!['"'] + (
    seq![':'] + (seq![' '] + (seq!['{'] + (seq!['\n'] + body)))))))));
    let (a, b, c, d) = ("{"@, "  \"per_relay\": {\n"@, "\n  }"@, "}"@);
    assert(a + (b + body) =~= front);
    assert(a + (b + lines + c) + d =~= a + (b + (lines + (c + d))));
}

/// The thresholds that names and numbers set.
pub open spec fn thresholds_of(read: Seq<(Seq<char>, nat)>) -> Seq<(Seq<char>, RelayThreshold)> {
    Seq::new(read.len(), |i: int| (read[i].0, RelayThreshold { idle_seconds: read[i].1 as u64 }))
}

/// A block that was pasted does what was suggested: read back out of the
/// configuration, its thresholds allow every interface with a suggestion
/// exactly the silence that was suggested, whatever the rest are allowed, and
/// name no other interface.
pub proof fn law_a_pasted_block_does_what_was_suggested(
    all: Seq<Suggestion>,
    p: PerRelay,
    fallback: u64,
)
    requires
        forall|i: int, j: int|
            0 <= i < j < all.len() && (#[trigger] all[i]).idle_seconds is Some && (
            #[trigger] all[j]).idle_seconds is Some ==> all[i].gi != all[j].gi,
        chosen(all).len() > 0,
        crate::json::read_per_relay("{"@ + config_block(all) + "}"@) matches Some(read) && p@
            == crate::config::folded(thresholds_of(read)),
    ensures
        forall|i: int|
            0 <= i < all.len() && (#[trigger] all[i]).idle_seconds is Some ==> p.allowed(
                all[i].gi,
                fallback,
            ) == all[i].idle_seconds->0,
        forall|name: Seq<char>| #[trigger]
            p@.contains_key(name) <==> exists|i: int|
                0 <= i < all.len() && (#[trigger] all[i]).idle_seconds is Some
                    && all[i].gi.dotted() == name,
{
    law_the_block_reads_back(all);
    let es = chosen(all);
    let entries = thresholds_of(written(es));
    lemma_chosen_apart(all);
    assert forall|j: int, k: int| 0 <= j < k < entries.len() implies (#[trigger] entries[j]).0 != (
    #[trigger] entries[k]).0 by {
        if entries[j].0 == entries[k].0 {
            crate::addr::law_dotted_forms_tell_addresses_apart(es[j].0, es[k].0);
        }
    }
    assert forall|i: int|
        0 <= i < all.len() && (#[trigger] all[i]).idle_seconds is Some implies p.allowed(
        all[i].gi,
        fallback,
    ) == all[i].idle_seconds->0 by {
        let x = (all[i].gi, all[i].idle_seconds->0);
        lemma_chosen(all, x);
        let j = choose|j: int| 0 <= j < es.len() && es[j] == x;
        assert(entries[j].0 == x.0.dotted());
        crate::config::lemma_folded_value(entries, j);
    }
    assert forall|name: Seq<char>| #[trigger]
        p@.contains_key(name) <==> exists|i: int|
            0 <= i < all.len() && (#[trigger] all[i]).idle_seconds is Some && all[i].gi.dotted()
                == name by {
        crate::config::lemma_folded_names(entries, name);
        if p@.contains_key(name) {
            let j = choose|j: int| 0 <= j < entries.len() && (#[trigger] entries[j]).0 == name;
            lemma_chosen(all, es[j]);
            assert(es.contains(es[j]));
            let i = choose|i: int|
                0 <= i < all.len() && (#[trigger] all[i]).gi == es[j].0 && all[i].idle_seconds
                    == Some(es[j].1);
            assert(all[i].gi.dotted() == name);
        }
        if exists|i: int|
            0 <= i < all.len() && (#[trigger] all[i]).idle_seconds is Some && all[i].gi.dotted()
                == name {
            let i = choose|i: int|
                0 <= i < all.len() && (#[trigger] all[i]).idle_seconds is Some
                    && all[i].gi.dotted() == name;
            let x = (all[i].gi, all[i].idle_seconds->0);
            lemma_chosen(all, x);
            let j = choose|j: int| 0 <= j < es.len() && es[j] == x;
            assert(entries[j].0 == name);
        }
    }
}

/// With each interface once among the suggestions, each is chosen once.
proof fn lemma_chosen_apart(all: Seq<Suggestion>)
    requires
        forall|i: int, j: int|
            0 <= i < j < all.len() && (#[trigger] all[i]).idle_seconds is Some && (
            #[trigger] all[j]).idle_seconds is Some ==> all[i].gi != all[j].gi,
    ensures
        forall|j: int, k: int|
            0 <= j < k < chosen(all).len() ==> (#[trigger] chosen(all)[j]).0 != (
            #[trigger] chosen(all)[k]).0,
    decreases all.len(),
{
    if all.len() > 0 {
        let less = all.drop_last();
        assert forall|i: int, j: int|
            0 <= i < j < less.len() && (#[trigger] less[i]).idle_seconds is Some && (
            #[trigger] less[j]).idle_seconds is Some implies less[i].gi != less[j].gi by {
            assert(less[i] == all[i] && less[j] == all[j]);
        }
        lemma_chosen_apart(less);
        let last = all[all.len() - 1];
        let es = chosen(all);
        assert forall|j: int, k: int| 0 <= j < k < es.len() implies (#[trigger] es[j]).0 != (
        #[trigger] es[k]).0 by {
            if k < chosen(less).len() {
                assert(chosen(less)[j].0 != chosen(less)[k].0);
            } else {
                let x = chosen(less)[j];
                assert(es[j] == x);
                assert(chosen(less).contains(x));
                lemma_chosen(less, x);
                let i = choose|i: int|
                    0 <= i < less.len() && (#[trigger] less[i]).gi == x.0 && less[i].idle_seconds
                        == Some(x.1);
                assert(all[i] == less[i]);
                assert(all[i].gi != last.gi);
            }
        }
    }
}

// What each answer is for, in numbers.

/// A suggestion is three times the longest silence, and neither less than five
/// minutes nor more than a day; there is one exactly from the second request
/// on.
pub proof fn law_a_suggestion_is_three_times_the_silence(requests: u64, longest_gap: u64)
    ensures
        requests <= 1 ==> suggested(requests, longest_gap) is None,
        requests >= 2 ==> suggested(requests, longest_gap) is Some,
        requests >= 2 && longest_gap < 100 ==> suggested(requests, longest_gap) == Some(300u64),
        requests >= 2 && 100 <= longest_gap <= 28_800 ==> suggested(requests, longest_gap)->0 == 3
            * longest_gap,
        requests >= 2 && longest_gap > 28_800 ==> suggested(requests, longest_gap) == Some(86_400u64),
{
}

/// How many requests there were does not matter, as long as there were two.
pub proof fn law_the_count_does_not_move_a_suggestion(a: u64, b: u64, longest_gap: u64)
    requires
        a >= 2,
        b >= 2,
    ensures
        suggested(a, longest_gap) == suggested(b, longest_gap),
{
}

/// Nothing looser than the silence asks for: no suggestion is above three times
/// the longest silence unless the floor applies, and none above the ceiling.
pub proof fn law_a_suggestion_is_no_looser_than_it_has_to_be(requests: u64, longest_gap: u64)
    requires
        requests >= 2,
    ensures
        suggested(requests, longest_gap)->0 <= 3 * longest_gap || suggested(requests, longest_gap)->0
            == 300,
        suggested(requests, longest_gap)->0 <= 86_400,
        suggested(requests, longest_gap)->0 >= 300,
        suggested(requests, longest_gap)->0 >= 3 * longest_gap || suggested(requests, longest_gap)->0
            == 86_400,
{
}

/// A duration as text gives the seconds up to ninety of them, and above that
/// the nearest whole minute; half a minute counts as the next.
pub proof fn law_minutes_are_the_nearest(s: u64, m: nat)
    ensures
        s <= 90 ==> minutes_text(s) == crate::text::dec(s as nat) + "s"@,
        s > 90 && 60 * m <= s + 30 < 60 * m + 60 ==> minutes_text(s) == crate::text::dec(m) + "m"@,
{
    if s > 90 && 60 * m <= s + 30 < 60 * m + 60 {
        vstd::arithmetic::div_mod::lemma_fundamental_div_mod_converse(
            s + 30,
            60,
            m as int,
            s + 30 - 60 * m,
        );
    }
}

/// A duration as text gives the seconds up to ninety of them, and above that
/// the minutes and the seconds left over, which make the whole again.
pub proof fn law_minutes_and_seconds_make_the_whole(s: u64, m: nat, left: nat)
    ensures
        s <= 90 ==> secs_text(s) == crate::text::dec(s as nat) + "s"@,
        s > 90 && s == 60 * m + left && left < 60 ==> secs_text(s) == crate::text::dec(m) + "m"@
            + crate::text::dec(left) + "s"@,
{
    if s > 90 && s == 60 * m + left && left < 60 {
        vstd::arithmetic::div_mod::lemma_fundamental_div_mod_converse(
            s as int,
            60,
            m as int,
            left as int,
        );
    }
}

/// Every reason shows its arithmetic: how many requests, in how long (the time
/// watched, or the time between the first packet and the last where that is
/// more), and the longest silence; and then which of the three rules applied.
pub proof fn law_a_reason_shows_its_arithmetic(
    requests: u64,
    span: u64,
    longest_gap: u64,
    watched_for: u64,
)
    requires
        requests >= 2,
    ensures
        ({
            let seen_for = if span > watched_for {
                span
            } else {
                watched_for
            };
            let facts = crate::text::dec(requests as nat) + " requests in "@ + minutes_text(
                seen_for,
            ) + ", longest silence "@ + secs_text(longest_gap);
            let why = reason(requests, span, longest_gap, watched_for);
            &&& longest_gap < 100 ==> why == facts + "; 3 times that is still under the "@
                + secs_text(300) + " floor"@
            &&& 100 <= longest_gap <= 28_800 ==> why == facts + ", times 3 for room"@
            &&& longest_gap > 28_800 ==> why == facts
                + " — longer than a day with room above it. Capped; this interface may be too quiet to watch this way"@
        }),
{
}

/// Too little to say anything honest is said as itself.
pub proof fn law_too_little_is_said_as_itself(
    requests: u64,
    span: u64,
    longest_gap: u64,
    watched_for: u64,
)
    ensures
        requests == 0 ==> reason(requests, span, longest_gap, watched_for)
            == "nothing arrived. Either this interface is idle or it is already broken, and one hour of silence cannot tell the difference"@,
        requests == 1 ==> reason(requests, span, longest_gap, watched_for)
            == "only 1 request in "@ + minutes_text(watched_for)
            + ". Watch for longer: a threshold needs at least two, to have a gap between them"@,
{
}

/// The span runs from the first packet to the last of either kind, and is
/// nothing where there is no later one.
pub proof fn law_a_span_runs_to_the_last_packet(r: Relay)
    ensures
        r.last_request matches Some(t) ==> span_of(r) >= t - r.first_seen,
        r.last_reply matches Some(t) ==> span_of(r) >= t - r.first_seen,
        span_of(r) == 0 || r.last_request == Some((r.first_seen + span_of(r)) as u64)
            || r.last_reply == Some((r.first_seen + span_of(r)) as u64),
{
}

/// Every interface that relayed anything has exactly one suggestion, in the
/// order of the addresses, from its own row: its counts as they stand, and
/// what they suggest.
pub proof fn law_every_row_gets_its_own_suggestion(
    out: Seq<Suggestion>,
    rows: Map<u32, Relay>,
    watched_for: u64,
    g: u32,
)
    requires
        suggests(out, rows, watched_for),
    ensures
        rows.contains_key(g) <==> exists|i: int|
            0 <= i < out.len() && (#[trigger] out[i]).gi.bits == g,
        forall|i: int, j: int|
            0 <= i < j < out.len() ==> (#[trigger] out[i]).gi.bits < (#[trigger] out[j]).gi.bits,
        forall|i: int|
            0 <= i < out.len() && (#[trigger] out[i]).gi.bits == g ==> {
                let r = rows[g];
                &&& out[i].requests == r.requests
                &&& out[i].longest_gap == r.longest_gap
                &&& out[i].idle_seconds is Some <==> r.requests >= 2
                &&& out[i].idle_seconds matches Some(n) ==> n == (if 3 * r.longest_gap < 300 {
                    300
                } else if 3 * r.longest_gap > 86_400 {
                    86_400
                } else {
                    3 * r.longest_gap
                })
                &&& out[i].span == span_of(r)
                &&& out[i].because@ == reason(r.requests, span_of(r), r.longest_gap, watched_for)
            },
{
}

/// The block is written out line by line: its opening, one line for each
/// interface with a suggestion in their order, commas between them, and its
/// end.
pub proof fn law_the_block_is_written_so(all: Seq<Suggestion>)
    ensures
        chosen(all).len() > 0 ==> config_block(all) == "  \"per_relay\": {\n"@ + crate::text::joined(
            Seq::new(
                chosen(all).len(),
                |i: int|
                    "    \""@ + chosen(all)[i].0.dotted() + "\": { \"idle_seconds\": "@
                        + crate::text::dec(chosen(all)[i].1 as nat) + " }"@,
            ),
            ",\n"@,
        ) + "\n  }"@,
{
    lemma_lines_are_the_chosen(all);
    assert(lines_for(chosen(all)) =~= Seq::new(
        chosen(all).len(),
        |i: int|
            "    \""@ + chosen(all)[i].0.dotted() + "\": { \"idle_seconds\": "@ + crate::text::dec(
                chosen(all)[i].1 as nat,
            ) + " }"@,
    ));
}

// What each operation gives its caller.

/// With two requests or more a threshold is suggested: three times the longest
/// silence, and no less than five minutes nor more than a day. With fewer there
/// is none.
pub proof fn law_what_judging_suggests(
    requests: u64,
    span: u64,
    longest_gap: u64,
    watched_for: u64,
    r: (Option<u64>, String),
)
    requires
        call_ensures(judge, (requests, span, longest_gap, watched_for), r),
    ensures
        requests < 2 ==> r.0 is None,
        requests >= 2 ==> r.0 is Some,
        r.0 matches Some(n) ==> n == (if 3 * longest_gap < 300 {
            300
        } else if 3 * longest_gap > 86_400 {
            86_400
        } else {
            3 * longest_gap
        }),
{
}

/// Two judgements with as long a silence suggest the same, however many
/// requests there were beyond the first and however long the watch was; and a
/// longer silence suggests no less, and at most three times as much more.
pub proof fn law_judging_goes_by_the_silence(
    a: u64,
    b: u64,
    span: u64,
    other_span: u64,
    gap: u64,
    more: u64,
    watched_for: u64,
    other_watch: u64,
    r: (Option<u64>, String),
    s: (Option<u64>, String),
)
    requires
        a >= 2,
        b >= 2,
        gap + more <= u64::MAX,
        call_ensures(judge, (a, span, gap, watched_for), r),
        call_ensures(judge, (b, other_span, (gap + more) as u64, other_watch), s),
    ensures
        r.0 is Some && s.0 is Some,
        r.0->0 <= s.0->0 <= r.0->0 + 3 * more,
        more == 0 ==> r.0 == s.0,
{
}

} // verus!
