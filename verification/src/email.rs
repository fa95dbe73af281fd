//! Telling somebody by mail.
//!
//! The same finding as the trap, in a form somebody reads on a phone at two
//! in the morning. Plain SMTP: `EHLO`, `MAIL FROM`, `RCPT TO`, `DATA`, `QUIT`,
//! and `AUTH PLAIN` where a relay insists on it, which sends the password in
//! clear text.
//!
//! What is said and what has to come back is decided here; the caller owns
//! the socket.

use vstd::prelude::*;

use crate::config::Smtp;
use crate::counters::Window;
use crate::text::{chars_of, push_dec, push_joined, trim_end};

verus! {

/// How long any one step of the conversation may take, in seconds. A relay
/// that says nothing would otherwise hold the thread that does the watching.
pub const STEP_SECONDS: u64 = 10;

/// The subject and body of one alert.
#[derive(Clone, Debug, PartialEq, Eq)]
pub struct Message {
    pub subject: String,
    pub body: String,
}

// Writing the alert.

/// What a state means, in words.
pub open spec fn headline(state: Seq<char>, host: Seq<char>) -> Seq<char> {
    if state == "quiet"@ {
        "no DHCP arriving on "@ + host
    } else if state == "unanswered"@ {
        "DHCP not being answered on "@ + host
    } else {
        "DHCP back to normal on "@ + host
    }
}

/// The subject: the whole finding, because that is all a phone shows.
pub open spec fn subject_text(
    prefix: Seq<char>,
    host: Seq<char>,
    state: Seq<char>,
    w: Window,
    window_secs: u64,
) -> Seq<char> {
    prefix + " "@ + headline(state, host) + " — "@ + crate::text::dec(w.requests as nat)
        + " requests, "@ + crate::text::dec(w.replies as nat) + " replies in "@
        + crate::text::dec(window_secs as nat) + "s"@
}

/// The body: the finding again, and the counts behind it.
pub open spec fn body_text(
    host: Seq<char>,
    interface: Seq<char>,
    state: Seq<char>,
    w: Window,
    percent: Seq<char>,
    window_secs: u64,
    busiest: Seq<char>,
) -> Seq<char> {
    headline(state, host) + "\n\nhost        "@ + host + "\ninterface   "@ + interface
        + "\nstate       "@ + state + "\nwindow      "@ + crate::text::dec(window_secs as nat)
        + " seconds\n\nrequests    "@ + crate::text::dec(w.requests as nat) + "\nreplies     "@
        + crate::text::dec(w.replies as nat) + "\nanswered    "@ + percent + "%\ntftp reads  "@
        + crate::text::dec(w.tftp_reads as nat) + "\nbusiest     "@ + busiest
        + "\n\nCounted on the wire by docsis_monitor. Requests are what reached this\ninterface; a relay that has stopped relaying leaves nothing in the\nprovisioning server's own logs, because nothing reached it to be logged.\n"@
}

fn push_headline(out: &mut String, state: &str, host: &str)
    ensures
        final(out)@ == old(out)@ + headline(state@, host@),
{
    if crate::text::same(state, "quiet") {
        out.append("no DHCP arriving on ");
    } else if crate::text::same(state, "unanswered") {
        out.append("DHCP not being answered on ");
    } else {
        out.append("DHCP back to normal on ");
    }
    out.append(host);
    assert(out@ =~= old(out)@ + headline(state@, host@));
}

/// Writes the alert.
///
/// The subject carries the whole finding: which host, which state, and the
/// counts behind it. `percent` is how many of a hundred requests were
/// answered, as text.
pub fn compose(
    prefix: &str,
    host: &str,
    interface: &str,
    state: &str,
    w: Window,
    percent: &str,
    window_secs: u64,
    busiest: &str,
) -> (r: Message)
    ensures
        r.subject@ == subject_text(prefix@, host@, state@, w, window_secs),
        r.body@ == body_text(host@, interface@, state@, w, percent@, window_secs, busiest@),
{
    let mut subject = prefix.to_owned();
    subject.append(" ");
    push_headline(&mut subject, state, host);
    subject.append(" — ");
    push_dec(&mut subject, w.requests);
    subject.append(" requests, ");
    push_dec(&mut subject, w.replies);
    subject.append(" replies in ");
    push_dec(&mut subject, window_secs);
    subject.append("s");

    let mut body = String::new();
    push_headline(&mut body, state, host);
    assert(body@ =~= headline(state@, host@));
    body.append("\n\nhost        ");
    body.append(host);
    body.append("\ninterface   ");
    body.append(interface);
    body.append("\nstate       ");
    body.append(state);
    body.append("\nwindow      ");
    push_dec(&mut body, window_secs);
    body.append(" seconds\n\nrequests    ");
    push_dec(&mut body, w.requests);
    body.append("\nreplies     ");
    push_dec(&mut body, w.replies);
    body.append("\nanswered    ");
    body.append(percent);
    body.append("%\ntftp reads  ");
    push_dec(&mut body, w.tftp_reads);
    body.append("\nbusiest     ");
    body.append(busiest);
    body.append(
        "\n\nCounted on the wire by docsis_monitor. Requests are what reached this\ninterface; a relay that has stopped relaying leaves nothing in the\nprovisioning server's own logs, because nothing reached it to be logged.\n",
    );
    Message { subject, body }
}

// The message on the wire.

/// Where the first line feed stands, or the end.
pub open spec fn line_end(s: Seq<char>) -> int
    decreases s.len(),
{
    if s.len() == 0 || s[0] == '\n' {
        0
    } else {
        1 + line_end(s.skip(1))
    }
}

/// A line without the carriage return that it may end with.
pub open spec fn without_return(s: Seq<char>) -> Seq<char> {
    if s.len() > 0 && s.last() == '\r' {
        s.drop_last()
    } else {
        s
    }
}

/// The lines of a text. A line ends with a line feed, or with a carriage
/// return and a line feed; the last one need not end with either.
pub open spec fn lines_of(s: Seq<char>) -> Seq<Seq<char>>
    decreases s.len(),
{
    if s.len() == 0 {
        Seq::empty()
    } else {
        let end = line_end(s);
        if 0 <= end < s.len() {
            seq![without_return(s.take(end))] + lines_of(s.skip(end + 1))
        } else {
            seq![s]
        }
    }
}

/// A line as it is sent: with one more dot in front of a leading one.
pub open spec fn stuffed(line: Seq<char>) -> Seq<char> {
    if line.len() > 0 && line[0] == '.' {
        seq!['.'] + line
    } else {
        line
    }
}

/// Lines as they are sent, each with its ending.
pub open spec fn stuffed_lines(lines: Seq<Seq<char>>) -> Seq<char>
    decreases lines.len(),
{
    if lines.len() == 0 {
        Seq::empty()
    } else {
        stuffed(lines[0]) + "\r\n"@ + stuffed_lines(lines.skip(1))
    }
}

/// The header of a message, and the empty line that ends it.
pub open spec fn header_text(cfg: Smtp, m: Message) -> Seq<char> {
    "From: "@ + cfg.from@ + "\r\nTo: "@ + crate::text::joined(
        crate::text::texts(cfg.to@),
        ", "@,
    ) + "\r\nSubject: "@ + m.subject@
        + "\r\nContent-Type: text/plain; charset=utf-8\r\n\r\n"@
}

/// The message itself, headers and all, ending with the lone dot.
pub open spec fn data_text(cfg: Smtp, m: Message) -> Seq<char> {
    header_text(cfg, m) + stuffed_lines(lines_of(m.body@)) + ".\r\n"@
}

/// Appends the characters from one place up to another.
fn push_range(out: &mut String, x: &Vec<char>, from: usize, to: usize)
    requires
        from <= to <= x@.len(),
    ensures
        final(out)@ == old(out)@ + x@.subrange(from as int, to as int),
{
    let mut i: usize = from;
    while i < to
        invariant
            from <= i <= to <= x@.len(),
            out@ == old(out)@ + x@.subrange(from as int, i as int),
        decreases to - i,
    {
        out.push(x[i]);
        assert(out@ =~= old(out)@ + x@.subrange(from as int, i + 1));
        i = i + 1;
    }
}

proof fn lemma_line_end(s: Seq<char>)
    ensures
        0 <= line_end(s) <= s.len(),
        forall|i: int| 0 <= i < line_end(s) ==> s[i] != '\n',
        line_end(s) < s.len() ==> s[line_end(s)] == '\n',
    decreases s.len(),
{
    if s.len() > 0 && s[0] != '\n' {
        lemma_line_end(s.skip(1));
        assert forall|i: int| 0 <= i < line_end(s) implies s[i] != '\n' by {
            if i > 0 {
                assert(s.skip(1)[i - 1] == s[i]);
            }
        }
    }
}

/// Appends a body's lines as they are sent.
fn push_stuffed(out: &mut String, body: &str)
    ensures
        final(out)@ == old(out)@ + stuffed_lines(lines_of(body@)),
{
    let x = chars_of(body);
    let ghost all = stuffed_lines(lines_of(x@));
    let mut start: usize = 0;
    assert(x@.skip(0) =~= x@);
    while start < x.len()
        invariant
            start <= x@.len(),
            all == stuffed_lines(lines_of(x@)),
            out@ + stuffed_lines(lines_of(x@.skip(start as int))) == old(out)@ + all,
        decreases x@.len() - start,
    {
        let ghost rest = x@.skip(start as int);
        let ghost so_far = out@;
        let mut end: usize = start;
        assert(x@.skip(start as int) =~= rest);
        while end < x.len() && x[end] != '\n'
            invariant
                start <= end <= x@.len(),
                rest == x@.skip(start as int),
                line_end(rest) == (end - start) + line_end(x@.skip(end as int)),
            decreases x@.len() - end,
        {
            assert(x@.skip(end as int).skip(1) =~= x@.skip(end + 1));
            end = end + 1;
        }
        proof {
            lemma_line_end(rest);
            assert(line_end(rest) == end - start);
        }
        let stop: usize = if end < x.len() && end > start && x[end - 1] == '\r' {
            end - 1
        } else {
            end
        };
        let ghost line = x@.subrange(start as int, stop as int);
        let next: usize = if end < x.len() {
            end + 1
        } else {
            end
        };
        proof {
            if end < x@.len() {
                assert(rest.take(end - start) =~= x@.subrange(start as int, end as int));
                assert(without_return(rest.take(end - start)) =~= line);
                assert(rest.skip(end - start + 1) =~= x@.skip(next as int));
                assert(lines_of(rest) == seq![line] + lines_of(x@.skip(next as int)));
            } else {
                assert(rest =~= line);
                assert(x@.skip(next as int) =~= Seq::<char>::empty());
                assert(lines_of(rest) =~= seq![line] + lines_of(x@.skip(next as int)));
            }
            let ls = lines_of(rest);
            assert(ls[0] == line);
            assert(ls.skip(1) =~= lines_of(x@.skip(next as int)));
        }
        if start < stop && x[start] == '.' {
            out.push('.');
        }
        push_range(out, &x, start, stop);
        out.append("\r\n");
        proof {
            assert(out@ =~= so_far + (stuffed(line) + "\r\n"@));
            let later = stuffed_lines(lines_of(x@.skip(next as int)));
            assert(out@ + later =~= so_far + (stuffed(line) + "\r\n"@ + later));
        }
        start = next;
    }
    proof {
        assert(x@.skip(start as int) =~= Seq::<char>::empty());
        assert(lines_of(x@.skip(start as int)) =~= Seq::<Seq<char>>::empty());
        assert(out@ =~= out@ + stuffed_lines(lines_of(x@.skip(start as int))));
    }
}

/// The message itself, headers and all, ending with the lone dot.
///
/// Dot-stuffed: a body line that is a single dot would otherwise end the
/// message early.
pub fn data(cfg: &Smtp, m: &Message) -> (out: String)
    ensures
        out@ == data_text(*cfg, *m),
{
    let mut out = "From: ".to_owned();
    out.append(cfg.from.as_str());
    out.append("\r\nTo: ");
    push_joined(&mut out, &cfg.to, ", ");
    out.append("\r\nSubject: ");
    out.append(m.subject.as_str());
    out.append("\r\nContent-Type: text/plain; charset=utf-8\r\n\r\n");
    push_stuffed(&mut out, m.body.as_str());
    out.append(".\r\n");
    out
}

// Base64.

/// The character that stands for six bits.
#[verifier::opaque]
pub open spec fn letter(n: nat) -> char {
    if n < 26 {
        (65 + n) as char
    } else if n < 52 {
        (71 + n) as char
    } else if n < 62 {
        (n - 4) as char
    } else if n == 62 {
        '+'
    } else {
        '/'
    }
}

/// Three bytes as one number.
pub open spec fn three(a: u8, b: u8, c: u8) -> nat {
    (a * 0x1_0000 + b * 0x100 + c) as nat
}

/// Bytes in base64: four characters for each three bytes, and the last group
/// filled up with `=`.
pub open spec fn base64_text(raw: Seq<u8>) -> Seq<char>
    decreases raw.len(),
{
    if raw.len() == 0 {
        Seq::empty()
    } else if raw.len() == 1 {
        let n = three(raw[0], 0, 0);
        seq![letter(n / 0x4_0000), letter(n / 0x1000 % 64), '=', '=']
    } else if raw.len() == 2 {
        let n = three(raw[0], raw[1], 0);
        seq![letter(n / 0x4_0000), letter(n / 0x1000 % 64), letter(n / 64 % 64), '=']
    } else {
        let n = three(raw[0], raw[1], raw[2]);
        seq![
            letter(n / 0x4_0000),
            letter(n / 0x1000 % 64),
            letter(n / 64 % 64),
            letter(n % 64),
        ] + base64_text(raw.skip(3))
    }
}

fn push_letter(out: &mut String, n: u32)
    requires
        n < 64,
    ensures
        final(out)@ == old(out)@.push(letter(n as nat)),
{
    reveal(letter);
    let six: u8 = n as u8;
    let c: char = if six < 26 {
        (65 + six) as char
    } else if six < 52 {
        (71 + six) as char
    } else if six < 62 {
        (six - 4) as char
    } else if six == 62 {
        '+'
    } else {
        '/'
    };
    out.push(c);
}

/// Base64, for `AUTH PLAIN`.
pub fn base64(raw: &[u8]) -> (out: String)
    ensures
        out@ == base64_text(raw@),
{
    let mut out = String::new();
    let mut i: usize = 0;
    assert(raw@.skip(0) =~= raw@);
    assert(out@ + base64_text(raw@) =~= base64_text(raw@));
    while i < raw.len()
        invariant
            i <= raw@.len(),
            out@ + base64_text(raw@.skip(i as int)) == base64_text(raw@),
        decreases raw@.len() - i,
    {
        let ghost rest = raw@.skip(i as int);
        let ghost so_far = out@;
        let left: usize = raw.len() - i;
        let a: u32 = raw[i] as u32;
        let b: u32 = if left > 1 {
            raw[i + 1] as u32
        } else {
            0
        };
        let c: u32 = if left > 2 {
            raw[i + 2] as u32
        } else {
            0
        };
        let n: u32 = a * 0x1_0000 + b * 0x100 + c;
        push_letter(&mut out, n / 0x4_0000);
        push_letter(&mut out, n / 0x1000 % 64);
        if left > 1 {
            push_letter(&mut out, n / 64 % 64);
        } else {
            out.push('=');
        }
        if left > 2 {
            push_letter(&mut out, n % 64);
        } else {
            out.push('=');
        }
        let next: usize = if left > 2 {
            i + 3
        } else {
            raw.len()
        };
        proof {
            if left > 2 {
                assert(rest.skip(3) =~= raw@.skip(next as int));
            } else {
                assert(raw@.skip(next as int) =~= Seq::<u8>::empty());
            }
            assert(out@ + base64_text(raw@.skip(next as int)) =~= so_far + base64_text(rest));
        }
        i = next;
    }
    proof {
        assert(raw@.skip(i as int) =~= Seq::<u8>::empty());
        assert(out@ + base64_text(raw@.skip(i as int)) =~= out@);
    }
    out
}

// The conversation.

/// What the caller does next.
#[derive(Clone, Debug, PartialEq, Eq)]
pub enum Action {
    /// Read another line: the relay has not finished talking.
    Listen,
    /// Say this, and read the answer.
    Say(String),
    /// Say this and hang up. The mail is accepted; the answer is not waited
    /// for.
    Finish(String),
    /// Give up: the mail is not accepted.
    Fail(String),
}

/// The same, in characters.
pub ghost enum Next {
    Listen,
    Say(Seq<char>),
    Finish(Seq<char>),
    Fail(Seq<char>),
}

impl View for Action {
    type V = Next;

    open spec fn view(&self) -> Next {
        match self {
            Action::Listen => Next::Listen,
            Action::Say(s) => Next::Say(s@),
            Action::Finish(s) => Next::Finish(s@),
            Action::Fail(s) => Next::Fail(s@),
        }
    }
}

/// One step: what is said, and the digit that the answer has to start with.
pub ghost struct Step {
    pub say: Seq<char>,
    pub want: u8,
}

/// The recipients' steps, one for each.
pub open spec fn recipient_steps(to: Seq<String>) -> Seq<Step>
    decreases to.len(),
{
    if to.len() == 0 {
        Seq::empty()
    } else {
        recipient_steps(to.drop_last()).push(
            Step { say: "RCPT TO:<"@ + to.last()@ + ">\r\n"@, want: 50 },
        )
    }
}

/// What `AUTH PLAIN` sends: no authorization identity, the user, the password,
/// each behind a NUL.
pub open spec fn plain_secret(user: Seq<char>, password: Seq<char>) -> Seq<char> {
    "\0"@ + user + "\0"@ + password
}

/// The authentication's step, when both a user and a password are configured.
pub open spec fn auth_steps(cfg: Smtp) -> Seq<Step> {
    match (cfg.username, cfg.password) {
        (Some(user), Some(password)) => seq![
            Step {
                say: "AUTH PLAIN "@ + base64_text(
                    vstd::utf8::encode_utf8(plain_secret(user@, password@)),
                ) + "\r\n"@,
                want: 50,
            },
        ],
        _ => Seq::empty(),
    }
}

/// Everything that is said, in order: who we are, the password where there is
/// one, the sender, every recipient, and the message.
pub open spec fn script(cfg: Smtp, helo: Seq<char>, m: Message) -> Seq<Step> {
    seq![Step { say: "EHLO "@ + helo + "\r\n"@, want: 50 }] + auth_steps(cfg) + seq![
        Step { say: "MAIL FROM:<"@ + cfg.from@ + ">\r\n"@, want: 50 },
    ] + recipient_steps(cfg.to@) + seq![Step { say: "DATA\r\n"@, want: 51 }] + seq![
        Step { say: data_text(cfg, m), want: 50 },
    ]
}

/// What follows from one line of an answer, after `done` steps have been said.
///
/// An answer can be several lines; the last one has no hyphen after the code.
/// One that starts with another digit ends the conversation, and so does
/// silence.
pub open spec fn after_line(steps: Seq<Step>, done: int, line: Seq<char>) -> Next {
    let b = vstd::utf8::encode_utf8(line);
    let want: u8 = if done == 0 {
        50
    } else {
        steps[done - 1].want
    };
    if line.len() == 0 {
        Next::Fail("the mail server hung up"@)
    } else if b.len() == 0 || b[0] != want {
        Next::Fail("the mail server said: "@ + crate::text::without_trailing(line))
    } else if b.len() > 3 && b[3] == 45 {
        Next::Listen
    } else if done < steps.len() {
        Next::Say(steps[done].say)
    } else {
        Next::Finish("QUIT\r\n"@)
    }
}

/// A conversation with a mail relay.
#[derive(Debug)]
pub struct Conversation {
    steps: Vec<(String, u8)>,
    done: usize,
}

impl Conversation {
    /// Everything that is said, in order.
    pub closed spec fn steps(&self) -> Seq<Step> {
        Seq::new(
            self.steps@.len(),
            |i: int| Step { say: self.steps@[i].0@, want: self.steps@[i].1 },
        )
    }

    /// How many steps have been said.
    pub closed spec fn said(&self) -> int {
        self.done as int
    }

    /// No more has been said than there is to say.
    pub open spec fn well_formed(&self) -> bool {
        0 <= self.said() <= self.steps().len()
    }

    /// A conversation that has connected and said nothing yet: the relay
    /// greets first.
    pub fn open(cfg: &Smtp, helo: &str, m: &Message) -> (r: Conversation)
        ensures
            r.well_formed(),
            r.steps() == script(*cfg, helo@, *m),
            r.said() == 0,
    {
        let mut r = Conversation { steps: Vec::new(), done: 0 };

        let mut hello = "EHLO ".to_owned();
        hello.append(helo);
        hello.append("\r\n");
        r.then_say(hello, 50);

        if let (Some(user), Some(password)) = (&cfg.username, &cfg.password) {
            let mut secret = "\0".to_owned();
            secret.append(user.as_str());
            secret.append("\0");
            secret.append(password.as_str());
            let code = base64(secret.as_str().as_bytes());
            let mut auth = "AUTH PLAIN ".to_owned();
            auth.append(code.as_str());
            auth.append("\r\n");
            r.then_say(auth, 50);
        }
        let mut from = "MAIL FROM:<".to_owned();
        from.append(cfg.from.as_str());
        from.append(">\r\n");
        r.then_say(from, 50);
        let ghost opening = r.steps();
        proof {
            let first = seq![Step { say: "EHLO "@ + helo@ + "\r\n"@, want: 50 }];
            let sender = seq![Step { say: "MAIL FROM:<"@ + cfg.from@ + ">\r\n"@, want: 50 }];
            assert(opening =~= first + auth_steps(*cfg) + sender);
        }

        let mut i: usize = 0;
        while i < cfg.to.len()
            invariant
                i <= cfg.to@.len(),
                r.said() == 0,
                r.steps() == opening + recipient_steps(cfg.to@.take(i as int)),
            decreases cfg.to@.len() - i,
        {
            let ghost next = cfg.to@.take(i + 1);
            assert(next.drop_last() =~= cfg.to@.take(i as int));
            assert(next.last() == cfg.to@[i as int]);
            let mut to = "RCPT TO:<".to_owned();
            to.append(cfg.to[i].as_str());
            to.append(">\r\n");
            r.then_say(to, 50);
            assert(r.steps() =~= opening + recipient_steps(next));
            i = i + 1;
        }
        assert(cfg.to@.take(cfg.to@.len() as int) =~= cfg.to@);
        r.then_say("DATA\r\n".to_owned(), 51);
        r.then_say(data(cfg, m), 50);
        assert(r.steps() =~= script(*cfg, helo@, *m));
        r
    }

    fn then_say(&mut self, say: String, want: u8)
        ensures
            final(self).steps() == old(self).steps().push(Step { say: say@, want }),
            final(self).said() == old(self).said(),
    {
        self.steps.push((say, want));
        assert(self.steps() =~= old(self).steps().push(Step { say: say@, want }));
    }

    /// What to do after the relay said one line. An empty line means that it
    /// has hung up.
    pub fn heard(&mut self, line: &str) -> (r: Action)
        requires
            old(self).well_formed(),
        ensures
            final(self).well_formed(),
            r@ == after_line(old(self).steps(), old(self).said(), line@),
            final(self).steps() == old(self).steps(),
            final(self).said() == old(self).said() + (if r@ is Say {
                1int
            } else {
                0int
            }),
    {
        if line.is_empty() {
            return Action::Fail("the mail server hung up".to_owned());
        }
        let want: u8 = if self.done == 0 {
            50
        } else {
            self.steps[self.done - 1].1
        };
        let b = line.as_bytes();
        if b.len() == 0 || b[0] != want {
            let mut why = "the mail server said: ".to_owned();
            why.append(trim_end(line));
            return Action::Fail(why);
        }
        if b.len() > 3 && b[3] == 45 {
            return Action::Listen;
        }
        if self.done < self.steps.len() {
            let say = self.steps[self.done].0.clone();
            self.done = self.done + 1;
            assert(self.steps() =~= old(self).steps());
            return Action::Say(say);
        }
        Action::Finish("QUIT\r\n".to_owned())
    }
}

// What holds of every mail.

/// Where a line ends, for a receiver: the first carriage return that a line
/// feed follows.
pub open spec fn crlf_at(s: Seq<char>) -> int
    decreases s.len(),
{
    if s.len() < 2 {
        -1
    } else if s[0] == '\r' && s[1] == '\n' {
        0
    } else {
        let later = crlf_at(s.skip(1));
        if later < 0 {
            -1
        } else {
            1 + later
        }
    }
}

/// A received line without the dot that was put in front of it.
pub open spec fn unstuffed(line: Seq<char>) -> Seq<char> {
    if line.len() > 0 && line[0] == '.' {
        line.skip(1)
    } else {
        line
    }
}

/// The lines that a receiver takes for the body, up to the lone dot; nothing
/// when no lone dot comes.
pub open spec fn received(s: Seq<char>) -> Option<Seq<Seq<char>>>
    decreases s.len(),
{
    let end = crlf_at(s);
    if end < 0 || end + 2 > s.len() {
        None
    } else if s.take(end) == seq!['.'] {
        Some(Seq::empty())
    } else {
        match received(s.skip(end + 2)) {
            Some(more) => Some(seq![unstuffed(s.take(end))] + more),
            None => None,
        }
    }
}

proof fn lemma_crlf_after(line: Seq<char>, rest: Seq<char>)
    requires
        forall|i: int| 0 <= i < line.len() ==> line[i] != '\n',
    ensures
        crlf_at(line + seq!['\r', '\n'] + rest) == line.len(),
    decreases line.len(),
{
    let s = line + seq!['\r', '\n'] + rest;
    if line.len() > 0 {
        let less = line.skip(1);
        assert forall|i: int| 0 <= i < less.len() implies less[i] != '\n' by {
            assert(less[i] == line[i + 1]);
        }
        lemma_crlf_after(less, rest);
        assert(s.skip(1) =~= less + seq!['\r', '\n'] + rest);
        if line.len() > 1 {
            assert(s[1] == line[1]);
        }
    }
}

/// No line of a text holds a line feed.
proof fn lemma_lines_hold_no_feed(s: Seq<char>)
    ensures
        forall|i: int, j: int|
            0 <= i < lines_of(s).len() && 0 <= j < lines_of(s)[i].len() ==> (
            #[trigger] lines_of(s)[i][j]) != '\n',
    decreases s.len(),
{
    if s.len() > 0 {
        lemma_line_end(s);
        let end = line_end(s);
        if end < s.len() {
            lemma_lines_hold_no_feed(s.skip(end + 1));
            let first = without_return(s.take(end));
            let others = lines_of(s.skip(end + 1));
            let all = lines_of(s);
            assert forall|i: int, j: int| 0 <= i < all.len() && 0 <= j < all[i].len() implies (
            #[trigger] all[i][j]) != '\n' by {
                if i == 0 {
                    assert(all[0] == first);
                    assert(first[j] == s[j]);
                } else {
                    assert(all[i] == others[i - 1]);
                    assert(others[i - 1][j] != '\n');
                }
            }
        } else {
            assert(lines_of(s)[0] == s);
        }
    }
}

proof fn lemma_stuffed_reads_back(lines: Seq<Seq<char>>)
    requires
        forall|i: int, j: int|
            0 <= i < lines.len() && 0 <= j < lines[i].len() ==> (#[trigger] lines[i][j]) != '\n',
    ensures
        received(stuffed_lines(lines) + ".\r\n"@) == Some(lines),
    decreases lines.len(),
{
    reveal_strlit("\r\n");
    reveal_strlit(".\r\n");
    let crlf = seq!['\r', '\n'];
    assert("\r\n"@ =~= crlf);
    assert(".\r\n"@ =~= seq!['.', '\r', '\n']);
    let s = stuffed_lines(lines) + ".\r\n"@;
    if lines.len() == 0 {
        let dot = seq!['.'];
        assert(s =~= dot + crlf + Seq::<char>::empty());
        lemma_crlf_after(dot, Seq::empty());
        assert(s.take(1) =~= dot);
    } else {
        let line = stuffed(lines[0]);
        let less = lines.skip(1);
        let rest = stuffed_lines(less) + ".\r\n"@;
        assert(s =~= line + crlf + rest);
        assert forall|i: int| 0 <= i < line.len() implies line[i] != '\n' by {
            if lines[0].len() > 0 && lines[0][0] == '.' {
                if i > 0 {
                    assert(line[i] == lines[0][i - 1]);
                }
            } else {
                assert(line[i] == lines[0][i]);
            }
        }
        lemma_crlf_after(line, rest);
        assert(s.take(line.len() as int) =~= line);
        assert(s.skip(line.len() as int + 2) =~= rest);
        assert(line != seq!['.']) by {
            if line == seq!['.'] {
                assert(line[0] == '.');
                assert(line.len() == 1);
            }
        }
        assert(unstuffed(line) =~= lines[0]);
        assert forall|i: int, j: int| 0 <= i < less.len() && 0 <= j < less[i].len() implies (
        #[trigger] less[i][j]) != '\n' by {
            assert(less[i] == lines[i + 1]);
            assert(lines[i + 1][j] != '\n');
        }
        lemma_stuffed_reads_back(less);
        assert(seq![lines[0]] + less =~= lines);
    }
}

/// A body is received as it was written, whatever its lines start with: dots
/// put in front are taken off again, and nothing but the real terminator ends
/// the message.
pub proof fn law_a_body_arrives_as_written(body: Seq<char>)
    ensures
        received(stuffed_lines(lines_of(body)) + ".\r\n"@) == Some(lines_of(body)),
{
    lemma_lines_hold_no_feed(body);
    lemma_stuffed_reads_back(lines_of(body));
}

/// The six bits that a character stands for.
pub open spec fn letter_value(c: char) -> Option<nat> {
    let n = c as int;
    if 65 <= n <= 90 {
        Some((n - 65) as nat)
    } else if 97 <= n <= 122 {
        Some((n - 71) as nat)
    } else if 48 <= n <= 57 {
        Some((n + 4) as nat)
    } else if c == '+' {
        Some(62)
    } else if c == '/' {
        Some(63)
    } else {
        None
    }
}

/// The bytes that a base64 text stands for.
pub open spec fn base64_bytes(s: Seq<char>) -> Option<Seq<u8>>
    decreases s.len(),
{
    if s.len() == 0 {
        Some(Seq::empty())
    } else if s.len() < 4 {
        None
    } else {
        match (letter_value(s[0]), letter_value(s[1]), letter_value(s[2]), letter_value(s[3])) {
            (Some(a), Some(b), Some(c), Some(d)) => {
                let n = ((a * 64 + b) * 64 + c) * 64 + d;
                match base64_bytes(s.skip(4)) {
                    Some(more) => Some(
                        seq![(n / 0x1_0000) as u8, (n / 0x100 % 0x100) as u8, (n % 0x100) as u8]
                            + more,
                    ),
                    None => None,
                }
            },
            (Some(a), Some(b), Some(c), None) => {
                let n = (a * 64 + b) * 64 + c;
                Some(seq![(n / 0x400) as u8, (n / 4 % 0x100) as u8])
            },
            (Some(a), Some(b), None, None) => Some(seq![((a * 64 + b) / 16) as u8]),
            _ => None,
        }
    }
}

proof fn lemma_letter_value(n: nat)
    requires
        n < 64,
    ensures
        letter_value(letter(n)) == Some(n),
{
    reveal(letter);
}

/// Six bits at a time make the whole again.
proof fn lemma_sextets(a: u8, b: u8, c: u8)
    ensures
        ({
            let n = three(a, b, c);
            let whole = ((n / 0x4_0000 * 64 + n / 0x1000 % 64) * 64 + n / 64 % 64) * 64 + n % 64;
            &&& whole == n
            &&& n / 0x4_0000 < 64
            &&& n / 0x1_0000 == a
            &&& n / 0x100 % 0x100 == b
            &&& n % 0x100 == c
            &&& c == 0 ==> ({
                let m = (n / 0x4_0000 * 64 + n / 0x1000 % 64) * 64 + n / 64 % 64;
                m / 0x400 == a && m / 4 % 0x100 == b
            })
            &&& c == 0 && b == 0 ==> (n / 0x4_0000 * 64 + n / 0x1000 % 64) / 16 == a
        }),
{
    let n = three(a, b, c) as int;
    let (x, y, z) = (a as int, b as int, c as int);
    vstd::arithmetic::div_mod::lemma_fundamental_div_mod_converse(n, 0x1_0000, x, y * 0x100 + z);
    vstd::arithmetic::div_mod::lemma_fundamental_div_mod_converse(n, 0x100, x * 0x100 + y, z);
    vstd::arithmetic::div_mod::lemma_fundamental_div_mod_converse(x * 0x100 + y, 0x100, x, y);
    // The quotients by growing powers of 64 are each other's.
    vstd::arithmetic::div_mod::lemma_div_denominator(n, 64, 64);
    vstd::arithmetic::div_mod::lemma_div_denominator(n, 0x1000, 64);
    vstd::arithmetic::div_mod::lemma_fundamental_div_mod(n, 64);
    vstd::arithmetic::div_mod::lemma_fundamental_div_mod(n / 64, 64);
    vstd::arithmetic::div_mod::lemma_fundamental_div_mod(n / 0x1000, 64);
    assert(n / 0x4_0000 * 64 + n / 0x1000 % 64 == n / 0x1000);
    assert(n / 0x1000 * 64 + n / 64 % 64 == n / 64);
    assert(n / 0x4_0000 < 64) by {
        vstd::arithmetic::div_mod::lemma_fundamental_div_mod(n, 0x4_0000);
    }
    if c == 0 {
        let m = n / 64;
        vstd::arithmetic::div_mod::lemma_fundamental_div_mod_converse(n, 64, x * 0x400 + y * 4, 0);
        vstd::arithmetic::div_mod::lemma_fundamental_div_mod_converse(m, 0x400, x, y * 4);
        vstd::arithmetic::div_mod::lemma_fundamental_div_mod_converse(m, 4, x * 0x100 + y, 0);
        if b == 0 {
            vstd::arithmetic::div_mod::lemma_fundamental_div_mod_converse(n, 0x1000, x * 16, 0);
            vstd::arithmetic::div_mod::lemma_fundamental_div_mod_converse(n / 0x1000, 16, x, 0);
        }
    }
}

/// Base64 is read back as the bytes it was made from, NULs included.
pub proof fn law_base64_reads_back(raw: Seq<u8>)
    ensures
        base64_bytes(base64_text(raw)) == Some(raw),
    decreases raw.len(),
{
    let s = base64_text(raw);
    if raw.len() > 0 {
        let a = raw[0];
        let b = if raw.len() > 1 {
            raw[1]
        } else {
            0
        };
        let c = if raw.len() > 2 {
            raw[2]
        } else {
            0
        };
        let n = three(a, b, c);
        lemma_sextets(a, b, c);
        lemma_letter_value(n / 0x4_0000);
        lemma_letter_value(n / 0x1000 % 64);
        lemma_letter_value(n / 64 % 64);
        lemma_letter_value(n % 64);
        if raw.len() > 2 {
            law_base64_reads_back(raw.skip(3));
            assert(s.skip(4) =~= base64_text(raw.skip(3)));
            lemma_group_of_three(s, raw, n);
        } else if raw.len() == 2 {
            assert(s =~= seq![letter(n / 0x4_0000), letter(n / 0x1000 % 64), letter(n / 64 % 64), '=']);
            assert(letter_value('=') is None);
            assert(base64_bytes(s)->0 =~= raw);
        } else {
            assert(s =~= seq![letter(n / 0x4_0000), letter(n / 0x1000 % 64), '=', '=']);
            assert(letter_value('=') is None);
            assert(base64_bytes(s)->0 =~= raw);
        }
    }
}

proof fn lemma_group_of_three(s: Seq<char>, raw: Seq<u8>, n: nat)
    requires
        raw.len() > 2,
        s.len() >= 4,
        letter_value(s[0]) == Some(n / 0x4_0000),
        letter_value(s[1]) == Some(n / 0x1000 % 64),
        letter_value(s[2]) == Some(n / 64 % 64),
        letter_value(s[3]) == Some(n % 64),
        ((n / 0x4_0000 * 64 + n / 0x1000 % 64) * 64 + n / 64 % 64) * 64 + n % 64 == n,
        n / 0x1_0000 == raw[0],
        n / 0x100 % 0x100 == raw[1],
        n % 0x100 == raw[2],
        base64_bytes(s.skip(4)) == Some(raw.skip(3)),
    ensures
        base64_bytes(s) == Some(raw),
{
    assert(seq![raw[0], raw[1], raw[2]] + raw.skip(3) =~= raw);
}

/// A relay that refuses ends the conversation: whatever it was asked, an answer
/// that starts with another digit is an error, and so is hanging up.
pub proof fn law_a_refusal_is_an_error(steps: Seq<Step>, done: int, line: Seq<char>)
    requires
        0 <= done <= steps.len(),
        line.len() == 0 || vstd::utf8::encode_utf8(line).len() == 0 || vstd::utf8::encode_utf8(
            line,
        )[0] != (if done == 0 {
            50u8
        } else {
            steps[done - 1].want
        }),
    ensures
        after_line(steps, done, line) is Fail,
{
}

/// The mail counts as sent only after everything has been said, the message
/// last.
pub proof fn law_success_comes_last(steps: Seq<Step>, done: int, line: Seq<char>)
    requires
        0 <= done <= steps.len(),
        after_line(steps, done, line) is Finish,
    ensures
        done == steps.len(),
{
}

/// A password is sent before the envelope, and none is sent unless both a user
/// and a password are configured.
pub proof fn law_the_password_comes_before_the_envelope(cfg: Smtp, helo: Seq<char>, m: Message)
    ensures
        ({
            let steps = script(cfg, helo, m);
            let n = auth_steps(cfg).len() as int;
            &&& cfg.username is None || cfg.password is None ==> n == 0
            &&& n <= 1
            &&& steps.len() == n + cfg.to@.len() + 4
            &&& steps[0].say == "EHLO "@ + helo + "\r\n"@
            &&& n == 1 ==> steps[1] == auth_steps(cfg)[0]
            &&& steps[1 + n].say == "MAIL FROM:<"@ + cfg.from@ + ">\r\n"@
            &&& forall|i: int|
                0 <= i < cfg.to@.len() ==> (#[trigger] steps[2 + n + i]).say == "RCPT TO:<"@
                    + cfg.to@[i]@ + ">\r\n"@
            &&& steps[steps.len() - 2].say == "DATA\r\n"@
            &&& steps.last().say == data_text(cfg, m)
        }),
{
    lemma_recipient_steps(cfg.to@);
    let steps = script(cfg, helo, m);
    let n = auth_steps(cfg).len() as int;
    let rcpt = recipient_steps(cfg.to@);
    assert forall|i: int| 0 <= i < cfg.to@.len() implies (#[trigger] steps[2 + n + i]).say
        == "RCPT TO:<"@ + cfg.to@[i]@ + ">\r\n"@ by {
        assert(steps[2 + n + i] == rcpt[i]);
    }
}

proof fn lemma_recipient_steps(to: Seq<String>)
    ensures
        recipient_steps(to).len() == to.len(),
        forall|i: int|
            0 <= i < to.len() ==> (#[trigger] recipient_steps(to)[i]).say == "RCPT TO:<"@ + to[i]@
                + ">\r\n"@,
    decreases to.len(),
{
    if to.len() > 0 {
        let less = to.drop_last();
        lemma_recipient_steps(less);
        assert forall|i: int| 0 <= i < to.len() implies (#[trigger] recipient_steps(to)[i]).say
            == "RCPT TO:<"@ + to[i]@ + ">\r\n"@ by {
            if i < to.len() - 1 {
                assert(recipient_steps(to)[i] == recipient_steps(less)[i]);
            }
        }
    }
}

// What each piece of the mail is for.

/// The subject carries the whole finding, of every state: what is wrong and on
/// which host, then the requests, the replies and the seconds that they were
/// counted over, each before its own word.
pub proof fn law_the_subject_carries_the_finding(
    prefix: Seq<char>,
    host: Seq<char>,
    state: Seq<char>,
    w: Window,
    window_secs: u64,
)
    ensures
        ({
            let subject = subject_text(prefix, host, state, w, window_secs);
            let counts = " — "@ + crate::text::dec(w.requests as nat) + " requests, "@
                + crate::text::dec(w.replies as nat) + " replies in "@ + crate::text::dec(
                window_secs as nat,
            ) + "s"@;
            &&& state == "quiet"@ ==> subject == prefix + " "@ + "no DHCP arriving on "@ + host
                + counts
            &&& state == "unanswered"@ ==> subject == prefix + " "@
                + "DHCP not being answered on "@ + host + counts
            &&& state != "quiet"@ && state != "unanswered"@ ==> subject == prefix + " "@
                + "DHCP back to normal on "@ + host + counts
        }),
{
    reveal_strlit("quiet");
    reveal_strlit("unanswered");
    let subject = subject_text(prefix, host, state, w, window_secs);
    let counts = " — "@ + crate::text::dec(w.requests as nat) + " requests, "@ + crate::text::dec(
        w.replies as nat,
    ) + " replies in "@ + crate::text::dec(window_secs as nat) + "s"@;
    assert("quiet"@.len() != "unanswered"@.len());
    assert(subject =~= prefix + " "@ + headline(state, host) + counts);
    if state == "quiet"@ {
        assert(subject =~= prefix + " "@ + "no DHCP arriving on "@ + host + counts);
    } else if state == "unanswered"@ {
        assert(subject =~= prefix + " "@ + "DHCP not being answered on "@ + host + counts);
    } else {
        assert(subject =~= prefix + " "@ + "DHCP back to normal on "@ + host + counts);
    }
}

/// The counts can be read off the subject: two subjects of one mail's host and
/// state with the same text have the same requests, replies and seconds.
pub proof fn law_a_subject_tells_its_counts_apart(
    prefix: Seq<char>,
    host: Seq<char>,
    state: Seq<char>,
    a: Window,
    a_secs: u64,
    b: Window,
    b_secs: u64,
)
    requires
        subject_text(prefix, host, state, a, a_secs) == subject_text(prefix, host, state, b, b_secs),
    ensures
        a.requests == b.requests,
        a.replies == b.replies,
        a_secs == b_secs,
{
    reveal_strlit(" requests, ");
    reveal_strlit(" replies in ");
    reveal_strlit("s");
    let front = prefix + " "@ + headline(state, host) + " — "@;
    let (x, y, z) = (" requests, "@, " replies in "@, "s"@);
    lemma_three_numbers(front, a.requests as nat, x, a.replies as nat, y, a_secs as nat, z);
    lemma_three_numbers(front, b.requests as nat, x, b.replies as nat, y, b_secs as nat, z);
    let ta = y + (crate::text::dec(a_secs as nat) + z);
    let tb = y + (crate::text::dec(b_secs as nat) + z);
    let ra = x + (crate::text::dec(a.replies as nat) + ta);
    let rb = x + (crate::text::dec(b.replies as nat) + tb);
    lemma_behind(
        front,
        crate::text::dec(a.requests as nat) + ra,
        crate::text::dec(b.requests as nat) + rb,
    );
    assert(ra[0] == ' ' && rb[0] == ' ');
    lemma_number_then_text(a.requests as nat, ra, b.requests as nat, rb);
    lemma_behind(
        x,
        crate::text::dec(a.replies as nat) + ta,
        crate::text::dec(b.replies as nat) + tb,
    );
    assert(ta[0] == ' ' && tb[0] == ' ');
    lemma_number_then_text(a.replies as nat, ta, b.replies as nat, tb);
    lemma_behind(y, crate::text::dec(a_secs as nat) + z, crate::text::dec(b_secs as nat) + z);
    lemma_number_then_text(a_secs as nat, z, b_secs as nat, z);
}

/// What stands behind the same beginning is the same.
proof fn lemma_behind(front: Seq<char>, a: Seq<char>, b: Seq<char>)
    requires
        front + a == front + b,
    ensures
        a == b,
{
    assert(a =~= (front + a).skip(front.len() as int));
    assert(b =~= (front + b).skip(front.len() as int));
}

/// Three numbers and the texts between them, grouped from the end.
proof fn lemma_three_numbers(
    front: Seq<char>,
    a: nat,
    x: Seq<char>,
    b: nat,
    y: Seq<char>,
    c: nat,
    z: Seq<char>,
)
    ensures
        front + crate::text::dec(a) + x + crate::text::dec(b) + y + crate::text::dec(c) + z == front
            + (crate::text::dec(a) + (x + (crate::text::dec(b) + (y + (crate::text::dec(c) + z))))),
{
    let (p, q, r) = (crate::text::dec(a), crate::text::dec(b), crate::text::dec(c));
    let s = r + z;
    assert(front + p + x + q + y + r + z =~= front + p + x + q + y + s);
    let t = y + s;
    assert(front + p + x + q + y + s =~= front + p + x + q + t);
    let u = q + t;
    assert(front + p + x + q + t =~= front + p + x + u);
    let v = x + u;
    assert(front + p + x + u =~= front + p + v);
    assert(front + p + v =~= front + (p + v));
}

/// A number and what follows it can be told apart, where that is no digit.
proof fn lemma_number_then_text(x: nat, r: Seq<char>, y: nat, t: Seq<char>)
    requires
        crate::text::dec(x) + r == crate::text::dec(y) + t,
        r.len() > 0,
        t.len() > 0,
        !crate::ratio::is_digit(r[0]),
        !crate::ratio::is_digit(t[0]),
    ensures
        x == y,
        r == t,
{
    crate::ratio::lemma_dec_reads_back(x);
    crate::ratio::lemma_dec_reads_back(y);
    let (a, b) = (crate::text::dec(x), crate::text::dec(y));
    let s = a + r;
    assert(s[a.len() as int] == r[0]);
    assert((b + t)[b.len() as int] == t[0]);
    if a.len() < b.len() {
        assert(crate::ratio::is_digit(b[a.len() as int]));
        assert((b + t)[a.len() as int] == b[a.len() as int]);
    } else if b.len() < a.len() {
        assert(crate::ratio::is_digit(a[b.len() as int]));
        assert(s[b.len() as int] == a[b.len() as int]);
    }
    assert(a =~= s.take(a.len() as int));
    assert(b =~= (b + t).take(b.len() as int));
    assert(r =~= s.skip(a.len() as int));
    assert(t =~= (b + t).skip(b.len() as int));
}

/// The body gives the same finding line by line: the headline that the subject
/// has, the host, the interface and the state as they are called, and the same
/// counts, each on a line of its own.
pub proof fn law_the_body_gives_the_same_counts(
    prefix: Seq<char>,
    host: Seq<char>,
    interface: Seq<char>,
    state: Seq<char>,
    w: Window,
    percent: Seq<char>,
    window_secs: u64,
    busiest: Seq<char>,
)
    ensures
        ({
            let headline = if state == "quiet"@ {
                "no DHCP arriving on "@
            } else if state == "unanswered"@ {
                "DHCP not being answered on "@
            } else {
                "DHCP back to normal on "@
            } + host;
            let lines = "\n\nhost        "@ + host + "\ninterface   "@ + interface
                + "\nstate       "@ + state + "\nwindow      "@ + crate::text::dec(
                window_secs as nat,
            ) + " seconds"@ + "\n\nrequests    "@ + crate::text::dec(w.requests as nat)
                + "\nreplies     "@ + crate::text::dec(w.replies as nat) + "\nanswered    "@ + percent
                + "%"@ + "\ntftp reads  "@ + crate::text::dec(w.tftp_reads as nat)
                + "\nbusiest     "@ + busiest
                + "\n\nCounted on the wire by docsis_monitor. Requests are what reached this\ninterface; a relay that has stopped relaying leaves nothing in the\nprovisioning server's own logs, because nothing reached it to be logged.\n"@;
            body_text(host, interface, state, w, percent, window_secs, busiest) == headline + lines
        }),
{
    reveal_strlit(" seconds\n\nrequests    ");
    reveal_strlit(" seconds");
    reveal_strlit("\n\nrequests    ");
    reveal_strlit("%\ntftp reads  ");
    reveal_strlit("%");
    reveal_strlit("\ntftp reads  ");
    assert(" seconds\n\nrequests    "@ =~= " seconds"@ + "\n\nrequests    "@);
    assert("%\ntftp reads  "@ =~= "%"@ + "\ntftp reads  "@);
    let head = headline(state, host);
    let (a, b, c, d) = (
        "\n\nhost        "@ + host + "\ninterface   "@ + interface + "\nstate       "@ + state
            + "\nwindow      "@ + crate::text::dec(window_secs as nat),
        crate::text::dec(w.requests as nat) + "\nreplies     "@ + crate::text::dec(w.replies as nat)
            + "\nanswered    "@ + percent,
        crate::text::dec(w.tftp_reads as nat) + "\nbusiest     "@ + busiest,
        "\n\nCounted on the wire by docsis_monitor. Requests are what reached this\ninterface; a relay that has stopped relaying leaves nothing in the\nprovisioning server's own logs, because nothing reached it to be logged.\n"@,
    );
    let (x, y) = (" seconds\n\nrequests    "@, "%\ntftp reads  "@);
    assert(body_text(host, interface, state, w, percent, window_secs, busiest) =~= head + (a + x + b
        + y + c + d));
    let lines = "\n\nhost        "@ + host + "\ninterface   "@ + interface + "\nstate       "@ + state
        + "\nwindow      "@ + crate::text::dec(window_secs as nat) + " seconds"@
        + "\n\nrequests    "@ + crate::text::dec(w.requests as nat) + "\nreplies     "@
        + crate::text::dec(w.replies as nat) + "\nanswered    "@ + percent + "%"@
        + "\ntftp reads  "@ + crate::text::dec(w.tftp_reads as nat) + "\nbusiest     "@ + busiest + d;
    assert(lines =~= a + x + b + y + c + d);
}

/// Lines end where line feeds stand: a line without any, a line feed and more
/// text are that line and the lines of the text behind it, and a carriage
/// return before the line feed is no part of the line. What no line feed ends
/// is a line too, as it is.
pub proof fn law_lines_end_at_line_feeds(line: Seq<char>, rest: Seq<char>)
    requires
        forall|i: int| 0 <= i < line.len() ==> line[i] != '\n',
    ensures
        lines_of(Seq::<char>::empty()) == Seq::<Seq<char>>::empty(),
        line.len() > 0 ==> lines_of(line) == seq![line],
        line.len() == 0 || line.last() != '\r' ==> lines_of(line + seq!['\n'] + rest) == seq![line]
            + lines_of(rest),
        lines_of(line + seq!['\r', '\n'] + rest) == seq![line] + lines_of(rest),
{
    lemma_line_end(line);
    let s = line + seq!['\n'] + rest;
    lemma_feed_at(line, seq!['\n'] + rest);
    assert(s =~= line + (seq!['\n'] + rest));
    assert(s.take(line.len() as int) =~= line);
    assert(s.skip(line.len() as int + 1) =~= rest);
    let long = line + seq!['\r'];
    let t = line + seq!['\r', '\n'] + rest;
    assert forall|i: int| 0 <= i < long.len() implies long[i] != '\n' by {
        if i < line.len() {
            assert(long[i] == line[i]);
        }
    }
    lemma_feed_at(long, seq!['\n'] + rest);
    assert(t =~= long + (seq!['\n'] + rest));
    assert(t.take(long.len() as int) =~= long);
    assert(without_return(long) =~= line);
    assert(t.skip(long.len() as int + 1) =~= rest);
    if line.len() > 0 {
        assert(line_end(line) == line.len()) by {
            lemma_feed_at(line, Seq::empty());
            assert(line + Seq::<char>::empty() =~= line);
        }
    }
}

proof fn lemma_feed_at(line: Seq<char>, rest: Seq<char>)
    requires
        forall|i: int| 0 <= i < line.len() ==> line[i] != '\n',
        rest.len() > 0 ==> rest[0] == '\n',
    ensures
        line_end(line + rest) == line.len(),
    decreases line.len(),
{
    let s = line + rest;
    if line.len() == 0 {
        assert(s =~= rest);
    } else {
        let less = line.skip(1);
        assert forall|i: int| 0 <= i < less.len() implies less[i] != '\n' by {
            assert(less[i] == line[i + 1]);
        }
        lemma_feed_at(less, rest);
        assert(s.skip(1) =~= less + rest);
    }
}

/// A line is sent as it is, with one more dot in front where it starts with
/// one, and ends with a carriage return and a line feed.
pub proof fn law_a_line_is_sent_so(line: Seq<char>, more: Seq<Seq<char>>)
    ensures
        stuffed_lines(Seq::<Seq<char>>::empty()) == Seq::<char>::empty(),
        line.len() > 0 && line[0] == '.' ==> stuffed_lines(seq![line] + more) == seq!['.'] + line
            + "\r\n"@ + stuffed_lines(more),
        line.len() == 0 || line[0] != '.' ==> stuffed_lines(seq![line] + more) == line + "\r\n"@
            + stuffed_lines(more),
{
    assert((seq![line] + more).skip(1) =~= more);
    assert((seq![line] + more)[0] == line);
}

/// A message is its header, an empty line, its body as it is sent, and the lone
/// dot; and the header names the sender, every recipient and the subject.
pub proof fn law_a_message_is_header_and_body(cfg: Smtp, m: Message)
    ensures
        data_text(cfg, m) == "From: "@ + cfg.from@ + "\r\nTo: "@ + crate::text::joined(
            crate::text::texts(cfg.to@),
            ", "@,
        ) + "\r\nSubject: "@ + m.subject@
            + "\r\nContent-Type: text/plain; charset=utf-8\r\n\r\n"@ + stuffed_lines(
            lines_of(m.body@),
        ) + ".\r\n"@,
{
}

/// Base64 takes four characters for each three bytes that are begun, and an
/// equals sign stands for each byte that the last group lacks.
#[verifier::spinoff_prover]
pub proof fn law_base64_is_filled_up(raw: Seq<u8>)
    ensures
        base64_text(raw).len() == 4 * ((raw.len() + 2) / 3),
        raw.len() % 3 == 1 ==> base64_text(raw).last() == '=' && base64_text(raw)[base64_text(
            raw,
        ).len() - 2] == '=',
        raw.len() % 3 == 2 ==> base64_text(raw).last() == '=',
    decreases raw.len(),
{
    if raw.len() > 2 {
        let less = raw.skip(3);
        law_base64_is_filled_up(less);
        let (s, t) = (base64_text(raw), base64_text(less));
        assert(s.len() == 4 + t.len());
        assert(less.len() == raw.len() - 3);
        assert(less.len() % 3 == raw.len() % 3);
        assert((raw.len() + 2) / 3 == (less.len() + 2) / 3 + 1);
        if raw.len() % 3 != 0 {
            assert(t.len() > 0);
            assert(s.last() == t.last());
            if raw.len() % 3 == 1 {
                assert(t.len() >= 2);
                assert(s[s.len() - 2] == t[t.len() - 2]);
            }
        }
    }
}

/// Everything that is said wants a two for its answer, but `DATA`, which wants
/// a three; a password goes out in one step, as base64 of a NUL, the user, a
/// NUL and the password, where both are configured and nowhere else.
pub proof fn law_every_step_wants_its_answer(cfg: Smtp, helo: Seq<char>, m: Message)
    ensures
        ({
            let steps = script(cfg, helo, m);
            let both = cfg.username is Some && cfg.password is Some;
            let n: int = if both {
                1
            } else {
                0
            };
            &&& steps.len() == n + cfg.to@.len() + 4
            &&& forall|i: int|
                0 <= i < steps.len() ==> (#[trigger] steps[i]).want == (if i == steps.len() - 2 {
                    51u8
                } else {
                    50u8
                })
            &&& steps[0].say == "EHLO "@ + helo + "\r\n"@
            &&& both ==> exists|code: Seq<char>|
                steps[1].say == "AUTH PLAIN "@ + code + "\r\n"@ && #[trigger] base64_bytes(code)
                    == Some(
                    vstd::utf8::encode_utf8(
                        "\0"@ + (cfg.username->0)@ + "\0"@ + (cfg.password->0)@,
                    ),
                )
            &&& steps[1 + n].say == "MAIL FROM:<"@ + cfg.from@ + ">\r\n"@
            &&& forall|i: int|
                0 <= i < cfg.to@.len() ==> (#[trigger] steps[2 + n + i]).say == "RCPT TO:<"@
                    + cfg.to@[i]@ + ">\r\n"@
            &&& steps[steps.len() - 2].say == "DATA\r\n"@
            &&& steps.last().say == data_text(cfg, m)
        }),
{
    law_the_password_comes_before_the_envelope(cfg, helo, m);
    lemma_recipients_want(cfg.to@);
    let steps = script(cfg, helo, m);
    let both = cfg.username is Some && cfg.password is Some;
    let n: int = if both {
        1
    } else {
        0
    };
    let rcpt = recipient_steps(cfg.to@);
    assert forall|i: int| 0 <= i < steps.len() implies (#[trigger] steps[i]).want == (if i
        == steps.len() - 2 {
        51u8
    } else {
        50u8
    }) by {
        if 2 + n <= i < 2 + n + rcpt.len() {
            assert(steps[i] == rcpt[i - 2 - n]);
        }
    }
    if both {
        let secret = vstd::utf8::encode_utf8(
            "\0"@ + (cfg.username->0)@ + "\0"@ + (cfg.password->0)@,
        );
        let code = base64_text(secret);
        law_base64_reads_back(secret);
        assert(steps[1].say == "AUTH PLAIN "@ + code + "\r\n"@);
    }
}

proof fn lemma_recipients_want(to: Seq<String>)
    ensures
        recipient_steps(to).len() == to.len(),
        forall|i: int| 0 <= i < to.len() ==> (#[trigger] recipient_steps(to)[i]).want == 50,
    decreases to.len(),
{
    if to.len() > 0 {
        let less = to.drop_last();
        lemma_recipients_want(less);
        assert forall|i: int| 0 <= i < to.len() implies (#[trigger] recipient_steps(to)[i]).want
            == 50 by {
            if i < to.len() - 1 {
                assert(recipient_steps(to)[i] == recipient_steps(less)[i]);
            }
        }
    }
}

/// What a line of an answer leads to: silence and a refusal end it, in words;
/// a hyphen behind the code means that more comes; and otherwise the next thing
/// is said, or `QUIT` when there is none.
pub proof fn law_what_an_answer_leads_to(steps: Seq<Step>, done: int, line: Seq<char>)
    requires
        0 <= done <= steps.len(),
    ensures
        ({
            let b = vstd::utf8::encode_utf8(line);
            let want = if done == 0 {
                50u8
            } else {
                steps[done - 1].want
            };
            let next = after_line(steps, done, line);
            let taken = b.len() > 0 && b[0] == want;
            &&& line.len() == 0 ==> next == Next::Fail("the mail server hung up"@)
            &&& line.len() > 0 && !taken ==> next == Next::Fail(
                "the mail server said: "@ + crate::text::without_trailing(line),
            )
            &&& line.len() > 0 && taken && b.len() >= 4 && b[3] == 45 ==> next == Next::Listen
            &&& line.len() > 0 && taken && !(b.len() >= 4 && b[3] == 45) && done < steps.len()
                ==> next == Next::Say(steps[done].say)
            &&& line.len() > 0 && taken && !(b.len() >= 4 && b[3] == 45) && done == steps.len()
                ==> next == Next::Finish("QUIT\r\n"@)
        }),
{
}

// What each operation gives its caller.

/// A mail's subject ends with the requests, the replies and the seconds in that
/// order, whatever the state.
pub proof fn law_every_subject_ends_with_its_counts(
    prefix: &str,
    host: &str,
    interface: &str,
    state: &str,
    w: Window,
    percent: &str,
    window_secs: u64,
    busiest: &str,
    r: Message,
)
    requires
        call_ensures(
            compose,
            (prefix, host, interface, state, w, percent, window_secs, busiest),
            r,
        ),
    ensures
        ({
            let counts = " — "@ + crate::text::dec(w.requests as nat) + " requests, "@
                + crate::text::dec(w.replies as nat) + " replies in "@ + crate::text::dec(
                window_secs as nat,
            ) + "s"@;
            let n = r.subject@.len() - counts.len();
            n >= 0 && r.subject@.skip(n) == counts
        }),
        (prefix@ + " "@).is_prefix_of(r.subject@),
{
    let counts = " — "@ + crate::text::dec(w.requests as nat) + " requests, "@ + crate::text::dec(
        w.replies as nat,
    ) + " replies in "@ + crate::text::dec(window_secs as nat) + "s"@;
    let front = prefix@ + " "@ + headline(state@, host@);
    assert(r.subject@ =~= front + counts);
    assert(r.subject@.skip(front.len() as int) =~= counts);
}

/// Two mails of one host and state whose subjects are the same were composed
/// from the same requests, replies and seconds.
pub proof fn law_one_subject_has_one_set_of_counts(
    prefix: &str,
    host: &str,
    interface: &str,
    state: &str,
    percent: &str,
    busiest: &str,
    a: Window,
    a_secs: u64,
    r: Message,
    b: Window,
    b_secs: u64,
    s: Message,
)
    requires
        call_ensures(compose, (prefix, host, interface, state, a, percent, a_secs, busiest), r),
        call_ensures(compose, (prefix, host, interface, state, b, percent, b_secs, busiest), s),
        r.subject@ == s.subject@,
    ensures
        a.requests == b.requests,
        a.replies == b.replies,
        a_secs == b_secs,
{
    law_a_subject_tells_its_counts_apart(prefix@, host@, state@, a, a_secs, b, b_secs);
}

/// A mail's body gives each number on the line of its own name.
pub proof fn law_every_body_gives_its_counts(
    prefix: &str,
    host: &str,
    interface: &str,
    state: &str,
    w: Window,
    percent: &str,
    window_secs: u64,
    busiest: &str,
    r: Message,
)
    requires
        call_ensures(
            compose,
            (prefix, host, interface, state, w, percent, window_secs, busiest),
            r,
        ),
    ensures
        ({
            let headline = if state@ == "quiet"@ {
                "no DHCP arriving on "@
            } else if state@ == "unanswered"@ {
                "DHCP not being answered on "@
            } else {
                "DHCP back to normal on "@
            } + host@;
            let lines = "\n\nhost        "@ + host@ + "\ninterface   "@ + interface@
                + "\nstate       "@ + state@ + "\nwindow      "@ + crate::text::dec(
                window_secs as nat,
            ) + " seconds"@ + "\n\nrequests    "@ + crate::text::dec(w.requests as nat)
                + "\nreplies     "@ + crate::text::dec(w.replies as nat) + "\nanswered    "@
                + percent@ + "%"@ + "\ntftp reads  "@ + crate::text::dec(w.tftp_reads as nat)
                + "\nbusiest     "@ + busiest@
                + "\n\nCounted on the wire by docsis_monitor. Requests are what reached this\ninterface; a relay that has stopped relaying leaves nothing in the\nprovisioning server's own logs, because nothing reached it to be logged.\n"@;
            r.body@ == headline + lines
        }),
{
    law_the_body_gives_the_same_counts(
        prefix@,
        host@,
        interface@,
        state@,
        w,
        percent@,
        window_secs,
        busiest@,
    );
}

} // verus!
