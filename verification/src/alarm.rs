//! Deciding whether what was counted is trouble.
//!
//! Two questions, which fail the same way from a distance and have different
//! causes: is anything arriving, and is it being answered? The judgement is
//! made on numbers alone, one interface at a time.

use vstd::prelude::*;

use crate::ratio::{Fraction, Share};

verus! {

/// How many requests make a ratio mean anything.
pub const ENOUGH_REQUESTS: u64 = 5;

/// What the last window means.
#[derive(Clone, Copy, Debug, PartialEq, Eq, Structural)]
pub enum State {
    /// Provisioning is happening.
    Working,
    /// Requests have all but stopped arriving.
    Quiet,
    /// Requests are arriving and too few are being answered.
    Unanswered,
}

/// What one interface's last few minutes mean.
#[derive(Clone, Copy, Debug, PartialEq, Eq, Structural)]
pub struct RelayVerdict {
    pub state: State,
    /// Seconds since a request last arrived here, when one ever has.
    pub idle_for: Option<u64>,
    /// What that interface was allowed.
    pub idle_allowed: u64,
}

/// The fraction answered, with nothing asked counting as all of it.
pub open spec fn answered_share(requests: u64, replies: u64) -> Fraction {
    if requests == 0 {
        Fraction { num: 1, den: 1 }
    } else {
        Fraction { num: replies, den: requests }
    }
}

/// What one interface's numbers mean. Silence is judged first; the ratio only
/// once enough has arrived; and an interface that never spoke is not judged.
pub open spec fn state_of(
    requests: u64,
    replies: u64,
    idle_for: Option<u64>,
    idle_allowed: u64,
    min_answered: crate::ratio::Ratio,
) -> State {
    match idle_for {
        None => State::Working,
        Some(idle) => if idle > idle_allowed {
            State::Quiet
        } else if requests >= ENOUGH_REQUESTS && replies * min_answered.den < min_answered.num
            * requests {
            State::Unanswered
        } else {
            State::Working
        },
    }
}

/// The fraction answered, treating nothing asked as nothing to judge.
fn answered(requests: u64, replies: u64) -> (r: Fraction)
    ensures
        r == answered_share(requests, replies),
{
    if requests == 0 {
        Fraction { num: 1, den: 1 }
    } else {
        Fraction { num: replies, den: requests }
    }
}

/// Judges one interface.
///
/// Quiet is a silence, not a low count. An interface that has never sent a
/// request is not quiet: it is one that has only just been looked at.
pub fn judge_relay(
    requests: u64,
    replies: u64,
    idle_for: Option<u64>,
    idle_allowed: u64,
    min_answered: &Share,
) -> (r: RelayVerdict)
    ensures
        r.state == state_of(requests, replies, idle_for, idle_allowed, min_answered@),
        r.idle_for == idle_for,
        r.idle_allowed == idle_allowed,
{
    let state = match idle_for {
        None => State::Working,
        Some(idle) => if idle > idle_allowed {
            State::Quiet
        } else if requests >= ENOUGH_REQUESTS && answered(requests, replies).less_than(
            min_answered,
        ) {
            State::Unanswered
        } else {
            State::Working
        },
    };
    RelayVerdict { state, idle_for, idle_allowed }
}

/// The short word for a state.
pub open spec fn word_of(state: State) -> Seq<char> {
    match state {
        State::Working => "working"@,
        State::Quiet => "quiet"@,
        State::Unanswered => "unanswered"@,
    }
}

impl State {
    /// The short word this appears under in the log and in a trap.
    pub fn word(&self) -> (r: &'static str)
        ensures
            r@ == word_of(*self),
    {
        match self {
            State::Working => "working",
            State::Quiet => "quiet",
            State::Unanswered => "unanswered",
        }
    }

    /// Whether somebody has to be told.
    pub fn is_trouble(&self) -> (r: bool)
        ensures
            r == (*self != State::Working),
    {
        match self {
            State::Working => false,
            _ => true,
        }
    }
}

/// Whether one of the verdicts is `state`.
pub open spec fn some_in(verdicts: Seq<RelayVerdict>, state: State) -> bool {
    exists|i: int| 0 <= i < verdicts.len() && (#[trigger] verdicts[i]).state == state
}

/// The worst of several verdicts: quiet outranks unanswered, and unanswered
/// outranks working.
pub open spec fn worst_of(verdicts: Seq<RelayVerdict>) -> State {
    if some_in(verdicts, State::Quiet) {
        State::Quiet
    } else if some_in(verdicts, State::Unanswered) {
        State::Unanswered
    } else {
        State::Working
    }
}

/// The worst of several interfaces' verdicts, which is what the plant's own
/// state is. Worst, not an average: one CMTS out of twelve gone quiet is an
/// outage for everybody behind it.
pub fn worst(verdicts: &[RelayVerdict]) -> (r: State)
    ensures
        r == worst_of(verdicts@),
{
    let mut out = State::Working;
    let mut i: usize = 0;
    while i < verdicts.len()
        invariant
            i <= verdicts@.len(),
            out == worst_of(verdicts@.take(i as int)),
        decreases verdicts@.len() - i,
    {
        let ghost before = verdicts@.take(i as int);
        let ghost after = verdicts@.take(i + 1);
        let one = verdicts[i].state;
        out = match (out, one) {
            (State::Quiet, _) | (_, State::Quiet) => State::Quiet,
            (State::Unanswered, _) | (_, State::Unanswered) => State::Unanswered,
            _ => State::Working,
        };
        proof {
            assert(after[i as int].state == one);
            assert forall|s: State| #[trigger] some_in(after, s) == (some_in(before, s) || one
                == s) by {
                if some_in(before, s) {
                    let k = choose|k: int|
                        0 <= k < before.len() && (#[trigger] before[k]).state == s;
                    assert(after[k].state == s);
                }
                if some_in(after, s) {
                    let k = choose|k: int| 0 <= k < after.len() && (#[trigger] after[k]).state == s;
                    if k < i {
                        assert(before[k].state == s);
                    }
                }
            }
            assert(some_in(after, State::Quiet) == (some_in(before, State::Quiet) || one
                == State::Quiet));
            assert(some_in(after, State::Unanswered) == (some_in(before, State::Unanswered) || one
                == State::Unanswered));
        }
        i = i + 1;
    }
    assert(verdicts@.take(verdicts@.len() as int) =~= verdicts@);
    out
}

/// Remembers what has been said, so an afternoon-long outage is told once and
/// not fifty times.
#[derive(Debug)]
pub struct Repeats {
    after: u64,
    last: Option<(State, u64)>,
    lost: bool,
}

/// Whether a state is told at `now`, when `said` was told last: a change
/// always is, and the same trouble only once `after` seconds have passed.
pub open spec fn due(said: Option<(State, u64)>, after: u64, state: State, now: u64) -> bool {
    match said {
        None => state != State::Working,
        Some((was, moment)) => was != state || state != State::Working && (if now >= moment {
            now - moment
        } else {
            0
        }) >= after,
    }
}

impl Repeats {
    /// How many seconds the same trouble is held back for.
    pub closed spec fn interval(&self) -> u64 {
        self.after
    }

    /// What was told last, and when.
    pub closed spec fn said(&self) -> Option<(State, u64)> {
        self.last
    }

    /// Whether what was told last did not arrive.
    pub closed spec fn owed(&self) -> bool {
        self.lost
    }

    /// Whether a state is told at `now`: it is due, or what was told last did
    /// not arrive.
    pub open spec fn tells(&self, state: State, now: u64) -> bool {
        self.owed() || due(self.said(), self.interval(), state, now)
    }

    /// Nothing said yet.
    pub fn new(after: u64) -> (r: Repeats)
        ensures
            r.interval() == after,
            r.said() is None,
            !r.owed(),
    {
        Repeats { after, last: None, lost: false }
    }

    /// Whether this state should be sent now.
    ///
    /// A change always goes out, however recently something was said, and so
    /// does what comes after something that did not arrive. Only the same
    /// trouble repeating is held back.
    pub fn should_send(&mut self, state: &State, now: u64) -> (r: bool)
        ensures
            r == old(self).tells(*state, now),
            final(self).interval() == old(self).interval(),
            final(self).said() == (if r {
                Some((*state, now))
            } else {
                old(self).said()
            }),
            !final(self).owed(),
    {
        let send = self.lost || match self.last {
            None => state.is_trouble(),
            Some((was, moment)) => if was != *state {
                true
            } else {
                let since: u64 = now.saturating_sub(moment);
                state.is_trouble() && since >= self.after
            },
        };
        if send {
            self.last = Some((*state, now));
            self.lost = false;
        }
        send
    }

    /// What was said last did not arrive: the next window tries again. When
    /// nothing was said there is nothing to try.
    pub fn undelivered(&mut self)
        ensures
            not_arrived(*old(self), *final(self)),
    {
        self.lost = self.last.is_some();
    }
}

/// Whether losing what was said last took a memory from one state to another.
pub open spec fn not_arrived(before: Repeats, after: Repeats) -> bool {
    &&& after.interval() == before.interval()
    &&& after.said() == before.said()
    &&& after.owed() == (before.said() is Some)
}

// What holds of every judgement.

/// An interface at its limit is not yet quiet, and one past it is, whatever
/// came in and however little of it was answered.
pub proof fn law_silence_outranks_the_ratio(
    requests: u64,
    replies: u64,
    idle: u64,
    idle_allowed: u64,
    min_answered: crate::ratio::Ratio,
)
    ensures
        state_of(requests, replies, Some(idle), idle_allowed, min_answered) == State::Quiet <==> idle
            > idle_allowed,
{
}

/// An interface that has never spoken is not an outage.
pub proof fn law_never_spoken_is_no_outage(
    requests: u64,
    replies: u64,
    idle_allowed: u64,
    min_answered: crate::ratio::Ratio,
)
    ensures
        state_of(requests, replies, None, idle_allowed, min_answered) == State::Working,
{
}

/// A handful of requests is not enough to call an interface unanswered.
pub proof fn law_a_handful_is_not_unanswered(
    requests: u64,
    replies: u64,
    idle_for: Option<u64>,
    idle_allowed: u64,
    min_answered: crate::ratio::Ratio,
)
    requires
        requests < ENOUGH_REQUESTS,
    ensures
        state_of(requests, replies, idle_for, idle_allowed, min_answered) != State::Unanswered,
{
}

/// More replies never make an interface worse.
pub proof fn law_more_replies_never_hurt(
    requests: u64,
    replies: u64,
    more: u64,
    idle_for: Option<u64>,
    idle_allowed: u64,
    min_answered: crate::ratio::Ratio,
)
    requires
        replies <= more,
        state_of(requests, replies, idle_for, idle_allowed, min_answered) == State::Working,
    ensures
        state_of(requests, more, idle_for, idle_allowed, min_answered) == State::Working,
{
    assert(replies * min_answered.den <= more * min_answered.den) by (nonlinear_arith)
        requires
            replies <= more,
            0 <= min_answered.den,
    ;
}

/// One bad interface decides the plant: the plant works exactly when every
/// interface does, and one quiet interface makes the plant quiet.
pub proof fn law_one_bad_interface_decides(verdicts: Seq<RelayVerdict>)
    ensures
        worst_of(verdicts) == State::Working <==> forall|i: int|
            0 <= i < verdicts.len() ==> (#[trigger] verdicts[i]).state == State::Working,
        worst_of(verdicts) == State::Quiet <==> some_in(verdicts, State::Quiet),
{
    if worst_of(verdicts) == State::Working {
        assert forall|i: int| 0 <= i < verdicts.len() implies (#[trigger] verdicts[i]).state
            == State::Working by {
            assert(!some_in(verdicts, State::Quiet));
            assert(!some_in(verdicts, State::Unanswered));
            match verdicts[i].state {
                State::Working => {},
                State::Quiet => {},
                State::Unanswered => {},
            }
        }
    }
}

/// The order in which the interfaces are judged does not matter.
pub proof fn law_worst_ignores_order(a: Seq<RelayVerdict>, b: Seq<RelayVerdict>)
    requires
        a.to_set() == b.to_set(),
    ensures
        worst_of(a) == worst_of(b),
{
    assert forall|s: State| #[trigger] some_in(a, s) == some_in(b, s) by {
        if some_in(a, s) {
            let i = choose|i: int| 0 <= i < a.len() && (#[trigger] a[i]).state == s;
            assert(a.to_set().contains(a[i]));
            assert(b.contains(a[i]));
        }
        if some_in(b, s) {
            let i = choose|i: int| 0 <= i < b.len() && (#[trigger] b[i]).state == s;
            assert(b.to_set().contains(b[i]));
            assert(a.contains(b[i]));
        }
    }
    assert(some_in(a, State::Quiet) == some_in(b, State::Quiet));
    assert(some_in(a, State::Unanswered) == some_in(b, State::Unanswered));
}

/// What is remembered as said after a run of reports.
pub open spec fn said_after(
    said: Option<(State, u64)>,
    after: u64,
    reports: Seq<(State, u64)>,
) -> Option<(State, u64)>
    decreases reports.len(),
{
    if reports.len() == 0 {
        said
    } else {
        let earlier = said_after(said, after, reports.drop_last());
        let (state, now) = reports.last();
        if due(earlier, after, state, now) {
            Some((state, now))
        } else {
            earlier
        }
    }
}

/// How many of a run of reports are told.
pub open spec fn told(
    said: Option<(State, u64)>,
    after: u64,
    reports: Seq<(State, u64)>,
) -> nat
    decreases reports.len(),
{
    if reports.len() == 0 {
        0
    } else {
        let earlier = said_after(said, after, reports.drop_last());
        let (state, now) = reports.last();
        told(said, after, reports.drop_last()) + (if due(earlier, after, state, now) {
            1nat
        } else {
            0nat
        })
    }
}

/// While a trouble lasts and is not due again, what is remembered is the report
/// that told it.
pub proof fn lemma_said_until_due(
    said: Option<(State, u64)>,
    after: u64,
    reports: Seq<(State, u64)>,
    k: int,
)
    requires
        0 <= k < reports.len(),
        reports[k].0 != State::Working,
        due(said_after(said, after, reports.take(k)), after, reports[k].0, reports[k].1),
        forall|i: int|
            k < i < reports.len() ==> (#[trigger] reports[i]).0 == reports[k].0 && reports[k].1
                <= reports[i].1 < reports[k].1 + after,
    ensures
        said_after(said, after, reports) == Some(reports[k]),
    decreases reports.len(),
{
    let less = reports.drop_last();
    let n = reports.len() - 1;
    if k == n {
        assert(less =~= reports.take(k));
    } else {
        assert(less.take(k) =~= reports.take(k));
        assert forall|i: int| k < i < less.len() implies (#[trigger] less[i]).0 == less[k].0
            && less[k].1 <= less[i].1 < less[k].1 + after by {
            assert(reports[i].0 == reports[k].0);
        }
        lemma_said_until_due(said, after, less, k);
        assert(reports[n].0 == reports[k].0);
    }
}

/// A change of state always goes out, however recently something was said.
pub proof fn law_a_change_always_goes_out(
    was: State,
    moment: u64,
    after: u64,
    state: State,
    now: u64,
)
    requires
        was != state,
    ensures
        due(Some((was, moment)), after, state, now),
{
}

/// A recovery is told once and not repeated, and a plant that has worked from
/// the start is never told of.
pub proof fn law_working_is_never_repeated(moment: u64, after: u64, now: u64)
    ensures
        !due(Some((State::Working, moment)), after, State::Working, now),
        !due(None, after, State::Working, now),
{
}

/// An outage that lasts an afternoon is told once: of reports of one trouble
/// within `after` seconds of the first, only the first goes out.
pub proof fn law_one_outage_is_told_once(after: u64, state: State, reports: Seq<(State, u64)>)
    requires
        state != State::Working,
        reports.len() > 0,
        forall|i: int| 0 <= i < reports.len() ==> (#[trigger] reports[i]).0 == state,
        forall|i: int|
            0 <= i < reports.len() ==> reports[0].1 <= (#[trigger] reports[i]).1 < reports[0].1
                + after,
    ensures
        told(None, after, reports) == 1,
        said_after(None, after, reports) == Some(reports[0]),
    decreases reports.len(),
{
    reveal_with_fuel(told, 2);
    reveal_with_fuel(said_after, 2);
    let earlier = reports.drop_last();
    if earlier.len() > 0 {
        assert(earlier[0] == reports[0]);
        assert forall|i: int| 0 <= i < earlier.len() implies (#[trigger] earlier[i]).0 == state
            && earlier[0].1 <= earlier[i].1 < earlier[0].1 + after by {
            assert(earlier[i] == reports[i]);
        }
        law_one_outage_is_told_once(after, state, earlier);
        assert(reports.last() == reports[reports.len() - 1]);
    }
}

/// The same trouble is due again once `after` seconds have passed.
pub proof fn law_trouble_is_due_again(state: State, moment: u64, after: u64, now: u64)
    requires
        state != State::Working,
        moment <= now,
    ensures
        due(Some((state, moment)), after, state, now) <==> now - moment >= after,
{
}

/// What was told and did not arrive is tried again in the next window, whatever
/// that finds and whenever it is.
pub proof fn law_a_failed_send_is_tried_again(
    told: Repeats,
    lost: Repeats,
    state: State,
    now: u64,
)
    requires
        told.said() is Some,
        not_arrived(told, lost),
    ensures
        lost.tells(state, now),
{
}

// What each answer is for, in numbers.

/// Silence first: an interface that has spoken is quiet exactly when it has
/// been silent for longer than it may be. One that is not quiet is unanswered
/// exactly when at least five requests came and the answered part of them is
/// below the least fraction. Any other works, and so does one that never
/// spoke.
pub proof fn law_a_state_is_what_the_numbers_say(
    requests: u64,
    replies: u64,
    idle_for: Option<u64>,
    idle_allowed: u64,
    min_answered: crate::ratio::Ratio,
)
    ensures
        ({
            let state = state_of(requests, replies, idle_for, idle_allowed, min_answered);
            let late = idle_for is Some && idle_for->0 > idle_allowed;
            let short = requests >= 5 && replies * min_answered.den < min_answered.num * requests;
            &&& state == State::Quiet <==> late
            &&& state == State::Unanswered <==> idle_for is Some && !late && short
            &&& state == State::Working <==> idle_for is None || !late && !short
        }),
{
}

/// Of an interface that is asked and not silent, the answered fraction alone
/// decides, however many requests there are: the same part of ten times as
/// many is judged the same.
pub proof fn law_the_scale_does_not_matter(
    requests: u64,
    replies: u64,
    more: u64,
    answers: u64,
    k: nat,
    idle: u64,
    idle_allowed: u64,
    min_answered: crate::ratio::Ratio,
)
    requires
        k > 0,
        more == requests * k,
        answers == replies * k,
        requests >= 5,
    ensures
        state_of(more, answers, Some(idle), idle_allowed, min_answered) == state_of(
            requests,
            replies,
            Some(idle),
            idle_allowed,
            min_answered,
        ),
{
    let (r, a, n, d) = (requests as int, replies as int, min_answered.num as int, min_answered.den as int);
    let c = k as int;
    assert(r * c >= r) by (nonlinear_arith)
        requires
            r >= 0,
            c > 0,
    ;
    assert(a * c * d == (a * d) * c) by (nonlinear_arith);
    assert(n * (r * c) == (n * r) * c) by (nonlinear_arith);
    let (x, y) = (a * d, n * r);
    assert(x < y <==> x * c < y * c) by (nonlinear_arith)
        requires
            c > 0,
    ;
}

/// Fewer replies never make an interface better, and none at all leaves one
/// unanswered that is asked enough and has a least fraction above nought.
pub proof fn law_no_replies_are_too_few(
    requests: u64,
    idle: u64,
    idle_allowed: u64,
    min_answered: crate::ratio::Ratio,
)
    requires
        requests >= 5,
        idle <= idle_allowed,
        min_answered.num > 0,
    ensures
        state_of(requests, 0, Some(idle), idle_allowed, min_answered) == State::Unanswered,
{
    let (r, n) = (requests as int, min_answered.num as int);
    assert(n * r > 0) by (nonlinear_arith)
        requires
            n > 0,
            r > 0,
    ;
    assert(0 * min_answered.den == 0);
}

/// The plant is as bad as its worst interface: quiet when any is, else
/// unanswered when any is, and working only when all are.
pub proof fn law_the_plant_is_its_worst_interface(verdicts: Seq<RelayVerdict>)
    ensures
        worst_of(verdicts) == State::Quiet <==> exists|i: int|
            0 <= i < verdicts.len() && (#[trigger] verdicts[i]).state == State::Quiet,
        worst_of(verdicts) == State::Unanswered <==> (exists|i: int|
            0 <= i < verdicts.len() && (#[trigger] verdicts[i]).state == State::Unanswered) && (
        forall|i: int|
            0 <= i < verdicts.len() ==> (#[trigger] verdicts[i]).state != State::Quiet),
        worst_of(verdicts) == State::Working <==> (forall|i: int|
            0 <= i < verdicts.len() ==> (#[trigger] verdicts[i]).state == State::Working),
{
    law_one_bad_interface_decides(verdicts);
    if exists|i: int|
        0 <= i < verdicts.len() && (#[trigger] verdicts[i]).state == State::Unanswered {
        let i = choose|i: int|
            0 <= i < verdicts.len() && (#[trigger] verdicts[i]).state == State::Unanswered;
        assert(some_in(verdicts, State::Unanswered));
    }
    if exists|i: int| 0 <= i < verdicts.len() && (#[trigger] verdicts[i]).state == State::Quiet {
        let i = choose|i: int|
            0 <= i < verdicts.len() && (#[trigger] verdicts[i]).state == State::Quiet;
        assert(some_in(verdicts, State::Quiet));
    }
}

/// One more interface changes the plant's state only for the worse, and only
/// when it is the worse one.
pub proof fn law_one_more_interface_never_helps(verdicts: Seq<RelayVerdict>, v: RelayVerdict)
    ensures
        worst_of(verdicts.push(v)) == (if v.state == State::Quiet || worst_of(verdicts)
            == State::Quiet {
            State::Quiet
        } else if v.state == State::Unanswered || worst_of(verdicts) == State::Unanswered {
            State::Unanswered
        } else {
            State::Working
        }),
{
    let more = verdicts.push(v);
    assert(more[verdicts.len() as int] == v);
    assert forall|s: State| #[trigger] some_in(more, s) == (some_in(verdicts, s) || v.state == s) by {
        if some_in(verdicts, s) {
            let i = choose|i: int|
                0 <= i < verdicts.len() && (#[trigger] verdicts[i]).state == s;
            assert(more[i].state == s);
        }
        if some_in(more, s) {
            let i = choose|i: int| 0 <= i < more.len() && (#[trigger] more[i]).state == s;
            if i < verdicts.len() {
                assert(verdicts[i].state == s);
            }
        }
    }
    assert(some_in(more, State::Quiet) == (some_in(verdicts, State::Quiet) || v.state
        == State::Quiet));
    assert(some_in(more, State::Unanswered) == (some_in(verdicts, State::Unanswered) || v.state
        == State::Unanswered));
}

/// What is due, case by case: before anything was said, trouble; after another
/// state was said, anything; after the same trouble, that trouble once the
/// interval has passed; and after a recovery, no second one.
pub proof fn law_what_is_due(
    said: Option<(State, u64)>,
    after: u64,
    state: State,
    now: u64,
)
    ensures
        due(said, after, state, now) <==> match said {
            None => state == State::Quiet || state == State::Unanswered,
            Some((was, moment)) => {
                ||| was != state
                ||| state != State::Working && after == 0
                ||| state != State::Working && now >= moment + after
            },
        },
{
}

/// Each state has its word.
pub proof fn law_states_have_their_words(state: State)
    ensures
        state == State::Working ==> word_of(state) == "working"@,
        state == State::Quiet ==> word_of(state) == "quiet"@,
        state == State::Unanswered ==> word_of(state) == "unanswered"@,
{
}

/// A memory tells what is due, and what comes after something that was lost;
/// nothing else.
pub proof fn law_a_memory_tells_what_is_due(r: Repeats, state: State, now: u64)
    ensures
        r.owed() ==> r.tells(state, now),
        !r.owed() && r.said() is None ==> (r.tells(state, now) <==> state != State::Working),
        !r.owed() && r.said() is Some && (r.said()->0).0 != state ==> r.tells(state, now),
        !r.owed() && r.said() is Some && (r.said()->0).0 == state ==> (r.tells(state, now) <==> state
            != State::Working && (r.interval() == 0 || now >= (r.said()->0).1 + r.interval())),
{
}

/// What did not arrive is owed, once something has been said; nothing else of
/// the memory changes, and before anything was said nothing is owed.
pub proof fn law_only_what_was_said_is_owed(before: Repeats, after: Repeats, state: State, now: u64)
    requires
        not_arrived(before, after),
    ensures
        after.said() == before.said(),
        after.interval() == before.interval(),
        before.said() is Some ==> after.owed() && after.tells(state, now),
        before.said() is None ==> !after.owed() && (after.tells(state, now) <==> state
            != State::Working),
{
}

// What each operation gives its caller.

/// A verdict keeps the silence that it was given, and its state follows from the
/// numbers: quiet past the allowed silence, unanswered with five requests or
/// more of which too few were answered, and working otherwise.
pub proof fn law_what_a_verdict_says(
    requests: u64,
    replies: u64,
    idle_for: Option<u64>,
    idle_allowed: u64,
    min_answered: Share,
    v: RelayVerdict,
)
    requires
        call_ensures(judge_relay, (requests, replies, idle_for, idle_allowed, &min_answered), v),
    ensures
        v.idle_for == idle_for,
        v.idle_allowed == idle_allowed,
        ({
            let late = idle_for is Some && idle_for->0 > idle_allowed;
            let short = requests >= 5 && replies * min_answered@.den < min_answered@.num * requests;
            &&& v.state == State::Quiet <==> late
            &&& v.state == State::Unanswered <==> idle_for is Some && !late && short
            &&& v.state == State::Working <==> idle_for is None || !late && !short
        }),
{
}

/// Of two verdicts on as many requests and the same silence, the one with more
/// replies is unanswered only if the other one is.
pub proof fn law_more_replies_give_no_worse_a_verdict(
    requests: u64,
    fewer: u64,
    more: u64,
    idle_for: Option<u64>,
    idle_allowed: u64,
    min_answered: Share,
    with_fewer: RelayVerdict,
    with_more: RelayVerdict,
)
    requires
        fewer <= more,
        call_ensures(
            judge_relay,
            (requests, fewer, idle_for, idle_allowed, &min_answered),
            with_fewer,
        ),
        call_ensures(
            judge_relay,
            (requests, more, idle_for, idle_allowed, &min_answered),
            with_more,
        ),
    ensures
        with_more.state == State::Unanswered ==> with_fewer.state == State::Unanswered,
        with_more.state == State::Quiet <==> with_fewer.state == State::Quiet,
{
    let den = min_answered@.den;
    assert(fewer * den <= more * den) by (nonlinear_arith)
        requires
            fewer <= more,
    ;
}

/// Everything but working is trouble.
pub proof fn law_what_is_trouble(state: State, r: bool)
    requires
        call_ensures(State::is_trouble, (&state,), r),
    ensures
        state == State::Quiet || state == State::Unanswered ==> r,
        state == State::Working ==> !r,
{
}

/// A state's word is its own, and no other state's.
pub proof fn law_a_word_tells_its_state(a: State, b: State, x: &str, y: &str)
    requires
        call_ensures(State::word, (&a,), x),
        call_ensures(State::word, (&b,), y),
    ensures
        a == State::Working ==> x@ == "working"@,
        a == State::Quiet ==> x@ == "quiet"@,
        a == State::Unanswered ==> x@ == "unanswered"@,
        x@ == y@ ==> a == b,
{
    reveal_strlit("working");
    reveal_strlit("quiet");
    reveal_strlit("unanswered");
    assert("working"@.len() == 7 && "quiet"@.len() == 5 && "unanswered"@.len() == 10);
}

/// The plant is quiet when an interface is, else unanswered when one is, else
/// working.
pub proof fn law_what_the_worst_is(verdicts: &[RelayVerdict], r: State)
    requires
        call_ensures(worst, (verdicts,), r),
    ensures
        forall|i: int|
            0 <= i < verdicts@.len() && (#[trigger] verdicts@[i]).state == State::Quiet ==> r
                == State::Quiet,
        forall|i: int|
            0 <= i < verdicts@.len() && (#[trigger] verdicts@[i]).state == State::Unanswered ==> r
                != State::Working,
        r != State::Working ==> exists|i: int|
            0 <= i < verdicts@.len() && (#[trigger] verdicts@[i]).state == r,
{
}

/// A new memory tells of the first trouble at once, and not of working order.
pub proof fn law_a_new_memory_has_said_nothing(after: u64, r: Repeats, state: State, now: u64)
    requires
        call_ensures(Repeats::new, (after,), r),
    ensures
        r.interval() == after,
        r.tells(state, now) <==> state != State::Working,
{
}

} // verus!
