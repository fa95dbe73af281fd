//! What to watch, what counts as trouble, and who to tell.
//!
//! One JSON file holds every setting. A key that is not recognised is named
//! at startup and not refused: on a monitor, a setting that silently does
//! nothing is an alarm that never fires. Keys beginning `//` are comments.

use vstd::prelude::*;

use crate::addr::Ipv4Addr;
use crate::host;
use crate::ratio::Share;
use crate::text::{before, is_blank, push_dec, push_joined, same, starts_with, trim_end, trim_start};

verus! {

/// The file's name, in both places it is looked for.
pub const FILE: &'static str = "docsis_monitor.json";

/// Everything this program does.
#[derive(Clone, Debug)]
pub struct Config {
    /// The interface to watch, by name. `"any"` is not accepted: a monitor
    /// that cannot say which wire it is watching cannot say which wire went
    /// quiet.
    pub interface: String,
    /// Stay in the foreground.
    pub nofork: bool,
    /// How many seconds of history a decision is made over.
    pub window: u64,
    /// How often the counts are written to the log, in seconds.
    pub report_every: u64,
    /// What counts as trouble.
    pub thresholds: Thresholds,
    /// Where to send a trap. No targets means no traps.
    pub snmp: Snmp,
    /// What each named interface expects, instead of `idle_seconds`.
    pub per_relay: PerRelay,
    /// Where to send mail. No server or no recipients means no mail.
    pub smtp: Option<Smtp>,
    /// Anything else in the file: named at startup, never refused.
    pub extra: Vec<Setting>,
}

/// A key in the file that this program does not read.
#[derive(Clone, Debug)]
pub struct Setting {
    /// The section it stands in, or nothing for the file itself.
    pub section: String,
    pub key: String,
}

/// What one CMTS interface's normal looks like.
#[derive(Clone, Copy, Debug)]
pub struct RelayThreshold {
    /// The longest silence that is still normal here, in seconds.
    pub idle_seconds: u64,
}

/// The two ways provisioning fails from a distance.
#[derive(Clone, Debug)]
pub struct Thresholds {
    /// Least fraction of client requests that must be answered, 0 to 1,
    /// written in decimal.
    pub min_answered: String,
    /// The longest silence that is normal on an interface nothing else names.
    pub idle_seconds: u64,
    /// How long a trap is not repeated for, in seconds.
    pub resend_after: u64,
}

/// What each named interface expects, by the address that names it. Each name
/// stands here once, and the names stand in ascending order.
#[derive(Debug)]
pub struct PerRelay(Vec<(String, RelayThreshold)>);

/// Where a trap goes.
#[derive(Clone, Debug)]
pub struct Snmp {
    /// The receivers. Empty means the log only.
    pub targets: Vec<Target>,
    /// What the traps call this host. Defaults to the system's own name.
    pub sysname: Option<String>,
}

/// One trap receiver.
#[derive(Clone, Debug)]
pub struct Target {
    pub host: String,
    pub port: u16,
    /// The v2c community: a password sent in clear text.
    pub community: String,
}

/// A mail relay to alert through: plain SMTP, no STARTTLS.
#[derive(Clone, Debug)]
pub struct Smtp {
    pub server: String,
    pub port: u16,
    /// The envelope sender.
    pub from: String,
    /// Everyone who gets told. Empty means no mail.
    pub to: Vec<String>,
    /// What every subject starts with, so a mail rule can file these.
    pub subject_prefix: String,
    /// `AUTH PLAIN`, when a relay insists on it. The password crosses the
    /// wire in clear text.
    pub username: Option<String>,
    pub password: Option<String>,
    /// What to say in `EHLO`. Defaults to this host's own name.
    pub helo_name: Option<String>,
}

/// Why a configuration cannot do anything useful.
#[derive(Clone, Copy, Debug, PartialEq, Eq, Structural)]
pub enum Problem {
    /// The interface is not named.
    NoInterface,
    /// The interface is `any`.
    EveryInterface,
    /// The window is empty.
    NoWindow,
    /// A mail relay, and nobody to send to.
    NoRecipients,
    /// A mail relay, and no sender.
    NoSender,
    /// The least fraction answered does not lie between nought and one.
    NotAFraction,
}

// Defaults.

/// Five minutes.
pub fn default_window() -> (r: u64)
    ensures
        r == 300,
{
    300
}

/// Five minutes.
pub fn default_report() -> (r: u64)
    ensures
        r == 300,
{
    300
}

/// The port that SNMP traps are received on.
pub fn default_trap_port() -> (r: u16)
    ensures
        r == 162,
{
    162
}

/// The community that receivers expect unless told otherwise.
pub fn default_community() -> (r: String)
    ensures
        r@ == "public"@,
{
    "public".to_owned()
}

/// The port that mail relays listen on.
pub fn default_smtp_port() -> (r: u16)
    ensures
        r == 25,
{
    25
}

/// What every subject starts with unless told otherwise.
pub fn default_prefix() -> (r: String)
    ensures
        r@ == "[docsis]"@,
{
    "[docsis]".to_owned()
}

impl Default for Thresholds {
    fn default() -> (r: Thresholds)
        ensures
            r.min_answered@ == "0.75"@,
            r.idle_seconds == 3_600,
            r.resend_after == 900,
    {
        Thresholds { min_answered: "0.75".to_owned(), idle_seconds: 3_600, resend_after: 900 }
    }
}

impl Default for PerRelay {
    fn default() -> (r: PerRelay)
        ensures
            r@ == Map::<Seq<char>, RelayThreshold>::empty(),
    {
        let entries: Vec<(String, RelayThreshold)> = Vec::new();
        assert(keyed(entries@) =~= Seq::<(Seq<char>, RelayThreshold)>::empty());
        PerRelay(entries)
    }
}

impl Default for Snmp {
    fn default() -> (r: Snmp)
        ensures
            r.targets@ == Seq::<Target>::empty(),
            r.sysname is None,
    {
        Snmp { targets: Vec::new(), sysname: None }
    }
}

// Reading the settings.

impl Thresholds {
    /// The least fraction answered, when it is one.
    pub fn least_answered(&self) -> (r: Option<Share>)
        ensures
            match r {
                Some(f) => crate::ratio::writes_share(self.min_answered@) && f@
                    == crate::ratio::share_of(self.min_answered@),
                None => !crate::ratio::writes_share(self.min_answered@),
            },
    {
        Share::parse(self.min_answered.as_str())
    }
}

/// Entries with the characters of their names.
pub open spec fn keyed(entries: Seq<(String, RelayThreshold)>) -> Seq<(
    Seq<char>,
    RelayThreshold,
)> {
    Seq::new(entries.len(), |i: int| (entries[i].0@, entries[i].1))
}

/// What entries give each name. Of two that have the same name the later one
/// counts.
pub open spec fn folded(entries: Seq<(Seq<char>, RelayThreshold)>) -> Map<
    Seq<char>,
    RelayThreshold,
>
    decreases entries.len(),
{
    if entries.len() == 0 {
        Map::empty()
    } else {
        folded(entries.drop_last()).insert(entries.last().0, entries.last().1)
    }
}

/// Names in ascending order, each once.
pub open spec fn ascending(names: Seq<Seq<char>>) -> bool {
    forall|i: int, j: int|
        0 <= i < j < names.len() ==> crate::text::sorts_before(
            #[trigger] names[i],
            #[trigger] names[j],
        )
}

/// The names of entries, in their order.
pub open spec fn names_of(entries: Seq<(Seq<char>, RelayThreshold)>) -> Seq<Seq<char>> {
    Seq::new(entries.len(), |i: int| entries[i].0)
}

/// Whether a list holds every name that has a threshold, and nothing else, each
/// once and in ascending order.
pub open spec fn lists_names(
    names: Seq<Seq<char>>,
    thresholds: Map<Seq<char>, RelayThreshold>,
) -> bool {
    &&& ascending(names)
    &&& forall|name: Seq<char>| #[trigger]
        thresholds.contains_key(name) <==> names.contains(name)
}

/// Exactly the names that stand among the entries are given something.
pub proof fn lemma_folded_names(entries: Seq<(Seq<char>, RelayThreshold)>, name: Seq<char>)
    ensures
        folded(entries).contains_key(name) <==> exists|i: int|
            0 <= i < entries.len() && (#[trigger] entries[i]).0 == name,
    decreases entries.len(),
{
    if entries.len() > 0 {
        let less = entries.drop_last();
        lemma_folded_names(less, name);
        if folded(less).contains_key(name) {
            let i = choose|i: int| 0 <= i < less.len() && (#[trigger] less[i]).0 == name;
            assert(entries[i].0 == name);
        }
        if exists|i: int| 0 <= i < entries.len() && (#[trigger] entries[i]).0 == name {
            let i = choose|i: int| 0 <= i < entries.len() && (#[trigger] entries[i]).0 == name;
            if i < less.len() {
                assert(less[i].0 == name);
            }
        }
        assert(entries[entries.len() - 1] == entries.last());
    }
}

/// The last entry of a name says what the name is given.
pub proof fn lemma_folded_value(entries: Seq<(Seq<char>, RelayThreshold)>, i: int)
    requires
        0 <= i < entries.len(),
        forall|j: int| i < j < entries.len() ==> (#[trigger] entries[j]).0 != entries[i].0,
    ensures
        folded(entries).contains_key(entries[i].0),
        folded(entries)[entries[i].0] == entries[i].1,
    decreases entries.len(),
{
    if i < entries.len() - 1 {
        let less = entries.drop_last();
        assert(entries[entries.len() - 1].0 != entries[i].0);
        assert forall|j: int| i < j < less.len() implies (#[trigger] less[j]).0 != less[i].0 by {
            assert(entries[j].0 != entries[i].0);
        }
        lemma_folded_value(less, i);
    }
}

/// An entry of a new name gives it its threshold wherever it stands.
proof fn lemma_folded_insert(
    entries: Seq<(Seq<char>, RelayThreshold)>,
    at: int,
    x: (Seq<char>, RelayThreshold),
)
    requires
        0 <= at <= entries.len(),
        forall|i: int| 0 <= i < entries.len() ==> (#[trigger] entries[i]).0 != x.0,
    ensures
        folded(entries.insert(at, x)) == folded(entries).insert(x.0, x.1),
    decreases entries.len(),
{
    let more = entries.insert(at, x);
    if at == entries.len() {
        assert(more.drop_last() =~= entries);
        assert(more.last() == x);
    } else {
        let less = entries.drop_last();
        assert(more.drop_last() =~= less.insert(at, x));
        assert(more.last() == entries.last());
        assert(entries[entries.len() - 1].0 != x.0);
        assert forall|i: int| 0 <= i < less.len() implies (#[trigger] less[i]).0 != x.0 by {
            assert(entries[i].0 != x.0);
        }
        lemma_folded_insert(less, at, x);
        assert(folded(more) =~= folded(entries).insert(x.0, x.1));
    }
}

/// An entry in the place of the last one of its name gives the name its
/// threshold.
proof fn lemma_folded_update(
    entries: Seq<(Seq<char>, RelayThreshold)>,
    at: int,
    x: (Seq<char>, RelayThreshold),
)
    requires
        0 <= at < entries.len(),
        entries[at].0 == x.0,
        forall|i: int| at < i < entries.len() ==> (#[trigger] entries[i]).0 != x.0,
    ensures
        folded(entries.update(at, x)) == folded(entries).insert(x.0, x.1),
    decreases entries.len(),
{
    let changed = entries.update(at, x);
    let less = entries.drop_last();
    if at == entries.len() - 1 {
        assert(changed.drop_last() =~= less);
    } else {
        assert(changed.drop_last() =~= less.update(at, x));
        assert(changed.last() == entries.last());
        assert(entries[entries.len() - 1].0 != x.0);
        assert forall|i: int| at < i < less.len() implies (#[trigger] less[i]).0 != x.0 by {
            assert(entries[i].0 != x.0);
        }
        lemma_folded_update(less, at, x);
    }
    assert(folded(changed) =~= folded(entries).insert(x.0, x.1));
}

/// A name put between those before it and those behind it keeps the order.
proof fn lemma_ascending_insert(names: Seq<Seq<char>>, at: int, name: Seq<char>)
    requires
        ascending(names),
        0 <= at <= names.len(),
        forall|i: int| 0 <= i < at ==> crate::text::sorts_before(#[trigger] names[i], name),
        at < names.len() ==> crate::text::sorts_before(name, names[at]),
    ensures
        ascending(names.insert(at, name)),
        forall|i: int| 0 <= i < names.len() ==> #[trigger] names[i] != name,
{
    let after = names.insert(at, name);
    assert forall|i: int| at <= i < names.len() implies crate::text::sorts_before(
        name,
        #[trigger] names[i],
    ) by {
        if i > at {
            assert(crate::text::sorts_before(names[at], names[i]));
            crate::text::lemma_sorts_through(name, names[at], names[i]);
        }
    }
    assert forall|i: int, j: int| 0 <= i < j < after.len() implies crate::text::sorts_before(
        #[trigger] after[i],
        #[trigger] after[j],
    ) by {
        if j < at {
            assert(crate::text::sorts_before(names[i], names[j]));
        } else if i < at && j == at {
            assert(crate::text::sorts_before(names[i], name));
        } else if i < at {
            assert(crate::text::sorts_before(names[i], names[j - 1]));
        } else if i == at {
            assert(crate::text::sorts_before(name, names[j - 1]));
        } else {
            assert(crate::text::sorts_before(names[i - 1], names[j - 1]));
        }
    }
    assert forall|i: int| 0 <= i < names.len() implies #[trigger] names[i] != name by {
        crate::text::lemma_sorts_apart(names[i], name);
    }
}

/// In ascending order no name stands twice.
proof fn lemma_ascending_once(names: Seq<Seq<char>>, i: int, j: int)
    requires
        ascending(names),
        0 <= i < j < names.len(),
    ensures
        names[i] != names[j],
{
    assert(crate::text::sorts_before(names[i], names[j]));
    crate::text::lemma_sorts_apart(names[i], names[j]);
}

/// Gives a name its threshold among entries in ascending order.
fn put(entries: &mut Vec<(String, RelayThreshold)>, name: &String, t: RelayThreshold)
    requires
        ascending(names_of(keyed(old(entries)@))),
    ensures
        ascending(names_of(keyed(final(entries)@))),
        folded(keyed(final(entries)@)) == folded(keyed(old(entries)@)).insert(name@, t),
{
    let ghost was = keyed(entries@);
    let ghost names = names_of(was);
    let mut at: usize = 0;
    while at < entries.len() && before(entries[at].0.as_str(), name.as_str())
        invariant
            at <= entries@.len(),
            was == keyed(entries@),
            names == names_of(was),
            forall|i: int|
                0 <= i < at ==> crate::text::sorts_before(#[trigger] names[i], name@),
        decreases entries@.len() - at,
    {
        assert(names[at as int] == entries@[at as int].0@);
        at = at + 1;
    }
    let there: bool = at < entries.len() && same(entries[at].0.as_str(), name.as_str());
    if there {
        entries[at] = (name.clone(), t);
    } else {
        entries.insert(at, (name.clone(), t));
    }
    proof {
        let x = (name@, t);
        if there {
            assert(names[at as int] == name@);
            assert forall|i: int| at < i < was.len() implies (#[trigger] was[i]).0 != name@ by {
                assert(names[i] == was[i].0);
                lemma_ascending_once(names, at as int, i);
            }
            lemma_folded_update(was, at as int, x);
            assert(keyed(entries@) =~= was.update(at as int, x));
            assert(names_of(keyed(entries@)) =~= names);
        } else {
            if at < names.len() {
                assert(names[at as int] == was[at as int].0);
                crate::text::lemma_sorts_apart(name@, names[at as int]);
            }
            lemma_ascending_insert(names, at as int, name@);
            assert forall|i: int| 0 <= i < was.len() implies (#[trigger] was[i]).0 != name@ by {
                assert(names[i] == was[i].0);
            }
            lemma_folded_insert(was, at as int, x);
            assert(keyed(entries@) =~= was.insert(at as int, x));
            assert(names_of(keyed(entries@)) =~= names.insert(at as int, name@));
        }
    }
}

impl View for PerRelay {
    type V = Map<Seq<char>, RelayThreshold>;

    closed spec fn view(&self) -> Map<Seq<char>, RelayThreshold> {
        folded(keyed(self.0@))
    }
}

impl Clone for PerRelay {
    fn clone(&self) -> (r: PerRelay)
        ensures
            r@ == self@,
    {
        proof {
            use_type_invariant(self);
        }
        let mut entries: Vec<(String, RelayThreshold)> = Vec::new();
        let mut i: usize = 0;
        while i < self.0.len()
            invariant
                i <= self.0@.len(),
                keyed(entries@) == keyed(self.0@).take(i as int),
            decreases self.0@.len() - i,
        {
            let ghost so_far = keyed(entries@);
            let name = self.0[i].0.clone();
            let t = self.0[i].1;
            entries.push((name, t));
            assert(keyed(entries@) =~= so_far.push((name@, t)));
            assert(keyed(self.0@).take(i + 1) =~= so_far.push(keyed(self.0@)[i as int]));
            i = i + 1;
        }
        assert(keyed(entries@) =~= keyed(self.0@));
        PerRelay(entries)
    }
}

impl PerRelay {
    /// The names stand in ascending order, each once.
    #[verifier::type_invariant]
    spec fn in_order(self) -> bool {
        ascending(names_of(keyed(self.0@)))
    }

    /// The thresholds that entries give. Of two that have the same name the
    /// later one counts.
    pub fn from_entries(given: &Vec<(String, RelayThreshold)>) -> (r: PerRelay)
        ensures
            r@ == folded(keyed(given@)),
    {
        let mut entries: Vec<(String, RelayThreshold)> = Vec::new();
        let mut i: usize = 0;
        assert(keyed(entries@) =~= Seq::<(Seq<char>, RelayThreshold)>::empty());
        assert(keyed(given@).take(0) =~= Seq::<(Seq<char>, RelayThreshold)>::empty());
        while i < given.len()
            invariant
                i <= given@.len(),
                ascending(names_of(keyed(entries@))),
                folded(keyed(entries@)) == folded(keyed(given@).take(i as int)),
            decreases given@.len() - i,
        {
            let ghost next = keyed(given@).take(i + 1);
            assert(next.drop_last() =~= keyed(given@).take(i as int));
            assert(next.last() == (given@[i as int].0@, given@[i as int].1));
            put(&mut entries, &given[i].0, given[i].1);
            i = i + 1;
        }
        assert(keyed(given@).take(given@.len() as int) =~= keyed(given@));
        PerRelay(entries)
    }

    /// How long an interface may be silent for: its own number, or the
    /// fallback where it is not named.
    pub open spec fn allowed(&self, gi: Ipv4Addr, fallback: u64) -> u64 {
        if self@.contains_key(gi.dotted()) {
            self@[gi.dotted()].idle_seconds
        } else {
            fallback
        }
    }

    /// How long this interface may be silent for.
    pub fn idle_seconds(&self, gi: Ipv4Addr, fallback: u64) -> (r: u64)
        ensures
            r == self.allowed(gi, fallback),
    {
        proof {
            use_type_invariant(self);
        }
        let name = gi.text();
        let ghost entries = keyed(self.0@);
        let mut i: usize = 0;
        while i < self.0.len()
            invariant
                i <= self.0@.len(),
                name@ == gi.dotted(),
                entries == keyed(self.0@),
                ascending(names_of(entries)),
                forall|j: int| 0 <= j < i ==> (#[trigger] entries[j]).0 != name@,
            decreases self.0@.len() - i,
        {
            assert(names_of(entries)[i as int] == self.0@[i as int].0@);
            if same(self.0[i].0.as_str(), name.as_str()) {
                proof {
                    assert forall|j: int| i < j < entries.len() implies (#[trigger] entries[j]).0
                        != entries[i as int].0 by {
                        assert(names_of(entries)[j] == entries[j].0);
                        lemma_ascending_once(names_of(entries), i as int, j);
                    }
                    lemma_folded_value(entries, i as int);
                }
                return self.0[i].1.idle_seconds;
            }
            i = i + 1;
        }
        proof {
            lemma_folded_names(entries, name@);
        }
        fallback
    }

    /// The interfaces named here, each once and in ascending order.
    pub fn named(&self) -> (out: Vec<String>)
        ensures
            lists_names(crate::text::texts(out@), self@),
    {
        proof {
            use_type_invariant(self);
        }
        let mut out: Vec<String> = Vec::new();
        let mut i: usize = 0;
        while i < self.0.len()
            invariant
                i <= self.0@.len(),
                out@.len() == i,
                forall|j: int| 0 <= j < i ==> (#[trigger] out@[j])@ == self.0@[j].0@,
            decreases self.0@.len() - i,
        {
            out.push(self.0[i].0.clone());
            i = i + 1;
        }
        proof {
            let entries = keyed(self.0@);
            assert(crate::text::texts(out@) =~= names_of(entries));
            assert forall|name: Seq<char>| #[trigger]
                self@.contains_key(name) <==> crate::text::texts(out@).contains(name) by {
                lemma_folded_names(entries, name);
                if exists|j: int| 0 <= j < entries.len() && (#[trigger] entries[j]).0 == name {
                    let j = choose|j: int| 0 <= j < entries.len() && (#[trigger] entries[j]).0 == name;
                    assert(names_of(entries)[j] == name);
                }
            }
        }
        out
    }
}

impl Smtp {
    /// Whether a section can send anything: a server, somebody to send to,
    /// and a sender.
    pub open spec fn complete(&self) -> bool {
        !crate::text::blank(self.server@) && self.to@.len() > 0 && !crate::text::blank(self.from@)
    }

    /// Whether this section can actually send anything.
    pub fn usable(&self) -> (r: bool)
        ensures
            r == self.complete(),
    {
        !is_blank(self.server.as_str()) && self.to.len() > 0 && !is_blank(self.from.as_str())
    }

    /// What to put in `EHLO`, when the system gives its name so.
    pub fn helo_with(&self, system: Option<String>) -> (r: String)
        ensures
            r@ == host::name_among(
                host::text_of(self.helo_name),
                host::text_of(system),
                "localhost"@,
            ),
    {
        host::pick_name(&self.helo_name, system, "localhost")
    }

    /// What to put in `EHLO`: the configured name, or this host's own.
    pub fn helo(&self) -> (r: String)
        ensures
            self.helo_name matches Some(n) ==> r@ == n@,
    {
        host::name_or(&self.helo_name, "localhost")
    }
}

/// Whether a key is a comment.
pub open spec fn is_comment(key: Seq<char>) -> bool {
    "//"@.is_prefix_of(crate::text::without_leading(key))
}

impl Setting {
    /// The name a setting is reported under.
    pub open spec fn name(&self) -> Seq<char> {
        if self.section@.len() == 0 {
            self.key@
        } else {
            self.section@ + "."@ + self.key@
        }
    }
}

/// The names of the settings that are no comments, in order.
pub open spec fn unknown_names(extra: Seq<Setting>) -> Seq<Seq<char>>
    decreases extra.len(),
{
    if extra.len() == 0 {
        Seq::empty()
    } else {
        let earlier = unknown_names(extra.drop_last());
        if is_comment(extra.last().key@) {
            earlier
        } else {
            earlier.push(extra.last().name())
        }
    }
}

impl Config {
    /// The first thing that keeps this configuration from doing anything
    /// useful.
    pub open spec fn problem(&self) -> Option<Problem> {
        if crate::text::blank(self.interface@) {
            Some(Problem::NoInterface)
        } else if crate::text::without_trailing(crate::text::without_leading(self.interface@))
            == "any"@ {
            Some(Problem::EveryInterface)
        } else if self.window == 0 {
            Some(Problem::NoWindow)
        } else if self.smtp matches Some(m) && !crate::text::blank(m.server@) && m.to@.len() == 0 {
            Some(Problem::NoRecipients)
        } else if self.smtp matches Some(m) && !crate::text::blank(m.server@)
            && crate::text::blank(m.from@) {
            Some(Problem::NoSender)
        } else if !crate::ratio::writes_share(self.thresholds.min_answered@) {
            Some(Problem::NotAFraction)
        } else {
            None
        }
    }

    /// The mail relay, if one is configured and complete enough to use.
    pub open spec fn mail_relay(&self) -> Option<Smtp> {
        match self.smtp {
            Some(m) => if m.complete() {
                Some(m)
            } else {
                None
            },
            None => None,
        }
    }

    /// The mail relay, if one is configured and complete enough to use.
    pub fn mail(&self) -> (r: Option<&Smtp>)
        ensures
            match (r, self.mail_relay()) {
                (Some(m), Some(n)) => *m == n,
                (None, None) => true,
                _ => false,
            },
    {
        match &self.smtp {
            Some(m) => if m.usable() {
                Some(m)
            } else {
                None
            },
            None => None,
        }
    }

    /// The settings in the file that this program does not read.
    pub fn unknown(&self) -> (out: Vec<String>)
        ensures
            crate::text::texts(out@) == unknown_names(self.extra@),
    {
        let mut out: Vec<String> = Vec::new();
        let mut i: usize = 0;
        while i < self.extra.len()
            invariant
                i <= self.extra@.len(),
                crate::text::texts(out@) == unknown_names(self.extra@.take(i as int)),
            decreases self.extra@.len() - i,
        {
            let one = &self.extra[i];
            let ghost next = self.extra@.take(i + 1);
            assert(next.drop_last() =~= self.extra@.take(i as int));
            assert(next.last() == *one);
            if !starts_with(trim_start(one.key.as_str()), "//") {
                let mut name = one.section.clone();
                if !one.section.as_str().is_empty() {
                    name.append(".");
                }
                name.append(one.key.as_str());
                assert(name@ =~= one.name());
                let ghost so_far = out@;
                out.push(name);
                assert(crate::text::texts(out@) =~= crate::text::texts(so_far).push(name@));
            }
            i = i + 1;
        }
        assert(self.extra@.take(self.extra@.len() as int) =~= self.extra@);
        out
    }

    /// The line that says out loud what in the file this program does not
    /// read, if anything.
    pub fn report_unknown(&self) -> (r: Option<String>)
        ensures
            match r {
                Some(line) => unknown_names(self.extra@).len() > 0 && line@ == "ignoring "@
                    + crate::text::dec(unknown_names(self.extra@).len())
                    + " setting(s) this program does not know: "@ + crate::text::joined(
                    unknown_names(self.extra@),
                    ", "@,
                ),
                None => unknown_names(self.extra@).len() == 0,
            },
    {
        let unknown = self.unknown();
        if unknown.len() == 0 {
            return None;
        }
        let mut line = "ignoring ".to_owned();
        push_dec(&mut line, unknown.len() as u64);
        line.append(" setting(s) this program does not know: ");
        push_joined(&mut line, &unknown, ", ");
        Some(line)
    }

    /// Refuses a configuration that cannot do anything useful.
    pub fn check(&self) -> (r: Result<(), Problem>)
        ensures
            r == (match self.problem() {
                Some(p) => Err::<(), Problem>(p),
                None => Ok::<(), Problem>(()),
            }),
    {
        if is_blank(self.interface.as_str()) {
            return Err(Problem::NoInterface);
        }
        if same(trim_end(trim_start(self.interface.as_str())), "any") {
            return Err(Problem::EveryInterface);
        }
        if self.window == 0 {
            return Err(Problem::NoWindow);
        }
        // A half-filled mail section is refused rather than ignored: whoever
        // wrote a server and forgot the recipients believes mail is configured.
        if let Some(m) = &self.smtp {
            let named: bool = !is_blank(m.server.as_str());
            if named && m.to.len() == 0 {
                return Err(Problem::NoRecipients);
            }
            if named && is_blank(m.from.as_str()) {
                return Err(Problem::NoSender);
            }
        }
        match self.thresholds.least_answered() {
            Some(_) => Ok(()),
            None => Err(Problem::NotAFraction),
        }
    }

    /// A problem in words.
    pub fn explain(&self, problem: Problem) -> (r: String)
        ensures
            r@ == (match problem {
                Problem::NoInterface => "`interface` must name the interface to watch"@,
                Problem::EveryInterface => "`interface` must name one interface. \"any\" captures every wire at once, and a monitor that cannot say WHICH wire went quiet cannot say anything worth acting on."@,
                Problem::NoWindow => "`window` is how many seconds a judgement is made over; it cannot be 0"@,
                Problem::NoRecipients => "`smtp.server` is set but `smtp.to` names nobody to send to"@,
                Problem::NoSender => "`smtp.server` is set but `smtp.from` is empty; a relay rejects mail with no sender"@,
                Problem::NotAFraction => "`min_answered` is a fraction of requests, 0 to 1, not a percentage: "@
                    + self.thresholds.min_answered@ + " was given"@,
            }),
    {
        match problem {
            Problem::NoInterface => "`interface` must name the interface to watch".to_owned(),
            Problem::EveryInterface => "`interface` must name one interface. \"any\" captures every wire at once, and a monitor that cannot say WHICH wire went quiet cannot say anything worth acting on.".to_owned(),
            Problem::NoWindow => "`window` is how many seconds a judgement is made over; it cannot be 0".to_owned(),
            Problem::NoRecipients => "`smtp.server` is set but `smtp.to` names nobody to send to".to_owned(),
            Problem::NoSender => "`smtp.server` is set but `smtp.from` is empty; a relay rejects mail with no sender".to_owned(),
            Problem::NotAFraction => {
                let mut out = "`min_answered` is a fraction of requests, 0 to 1, not a percentage: ".to_owned();
                out.append(self.thresholds.min_answered.as_str());
                out.append(" was given");
                out
            },
        }
    }
}

// Finding the file.

/// A name within a directory.
pub open spec fn within(dir: Seq<char>, name: Seq<char>) -> Seq<char> {
    if dir.len() == 0 || dir.last() == '/' {
        dir + name
    } else {
        dir + "/"@ + name
    }
}

fn path_within(dir: &str, name: &str) -> (r: String)
    ensures
        r@ == within(dir@, name@),
{
    let mut out = dir.to_owned();
    let n: usize = dir.unicode_len();
    if n > 0 && dir.get_char(n - 1) != '/' {
        out.append("/");
    }
    out.append(name);
    out
}

/// Where the file is looked for, in order: the user's own directory, when
/// there is one, and then the system's.
pub fn search_paths(home: Option<&str>) -> (out: Vec<String>)
    ensures
        crate::text::texts(out@) == (match home {
            Some(h) => seq![within(within(h@, "config"@), FILE@), within("/etc"@, FILE@)],
            None => seq![within("/etc"@, FILE@)],
        }),
{
    let mut out: Vec<String> = Vec::new();
    if let Some(h) = home {
        let dir = path_within(h, "config");
        out.push(path_within(dir.as_str(), FILE));
    }
    out.push(path_within("/etc", FILE));
    proof {
        let want = match home {
            Some(h) => seq![within(within(h@, "config"@), FILE@), within("/etc"@, FILE@)],
            None => seq![within("/etc"@, FILE@)],
        };
        assert(crate::text::texts(out@) =~= want);
    }
    out
}

/// Picks the first path that exists, or says which were tried.
pub fn pick_path(tried: &Vec<String>, exists_at: &Vec<bool>) -> (r: Result<usize, String>)
    requires
        tried@.len() == exists_at@.len(),
    ensures
        match r {
            Ok(i) => i < tried@.len() && exists_at@[i as int] && forall|j: int|
                0 <= j < i ==> !#[trigger] exists_at@[j],
            Err(why) => (forall|j: int| 0 <= j < tried@.len() ==> !#[trigger] exists_at@[j])
                && why@ == "no "@ + FILE@ + " found. Tried, in order: "@ + crate::text::joined(
                crate::text::texts(tried@),
                ", "@,
            ) + ". Every setting this program has lives in that file."@,
        },
{
    let mut i: usize = 0;
    while i < tried.len()
        invariant
            i <= tried@.len(),
            tried@.len() == exists_at@.len(),
            forall|j: int| 0 <= j < i ==> !#[trigger] exists_at@[j],
        decreases tried@.len() - i,
    {
        if exists_at[i] {
            return Ok(i);
        }
        i = i + 1;
    }
    let mut why = "no ".to_owned();
    why.append(FILE);
    why.append(" found. Tried, in order: ");
    push_joined(&mut why, tried, ", ");
    why.append(". Every setting this program has lives in that file.");
    Err(why)
}

// What holds of every configuration.

/// A configuration that is not refused has its mail relay complete, or none: a
/// section with a server in it is never silently without effect.
pub proof fn law_half_a_mail_section_is_refused(cfg: Config)
    requires
        cfg.problem() is None,
    ensures
        match cfg.smtp {
            Some(m) => !crate::text::blank(m.server@) ==> cfg.mail_relay() == Some(m),
            None => cfg.mail_relay() is None,
        },
{
}

/// A configuration that is not refused names one interface, has a window, and
/// has a fraction to hold the answers against.
pub proof fn law_an_accepted_configuration_can_judge(cfg: Config)
    requires
        cfg.problem() is None,
    ensures
        !crate::text::blank(cfg.interface@),
        cfg.window > 0,
        crate::ratio::writes_share(cfg.thresholds.min_answered@),
{
}

/// A comment is never named, and every other setting is: nothing that was
/// written passes in silence but comments.
pub proof fn law_every_setting_but_comments_is_named(extra: Seq<Setting>, i: int)
    requires
        0 <= i < extra.len(),
        !is_comment(extra[i].key@),
    ensures
        unknown_names(extra).contains(extra[i].name()),
    decreases extra.len(),
{
    let less = extra.drop_last();
    if i == extra.len() - 1 {
        assert(unknown_names(extra).last() == extra[i].name());
    } else {
        assert(less[i] == extra[i]);
        law_every_setting_but_comments_is_named(less, i);
        let j = choose|j: int|
            0 <= j < unknown_names(less).len() && unknown_names(less)[j] == extra[i].name();
        assert(unknown_names(extra)[j] == extra[i].name());
    }
}

// What each setting is for.

/// Exactly six things are refused, and the first of them that holds is named:
/// an interface that is not named, or is `any`; a window of nought; a mail
/// server without recipients, or without a sender; and a least fraction that is
/// none. Anything else is accepted.
pub proof fn law_what_is_refused(cfg: Config)
    ensures
        ({
            let p = cfg.problem();
            let trimmed = crate::text::without_trailing(
                crate::text::without_leading(cfg.interface@),
            );
            let unnamed = crate::text::blank(cfg.interface@);
            let every = trimmed == "any"@;
            let empty = cfg.window == 0;
            let server = cfg.smtp is Some && !crate::text::blank((cfg.smtp->0).server@);
            let nobody = server && (cfg.smtp->0).to@.len() == 0;
            let unsigned = server && crate::text::blank((cfg.smtp->0).from@);
            let share = crate::ratio::writes_share(cfg.thresholds.min_answered@);
            &&& p is None <==> !unnamed && !every && !empty && !nobody && !unsigned && share
            &&& p == Some(Problem::NoInterface) <==> unnamed
            &&& p == Some(Problem::EveryInterface) <==> !unnamed && every
            &&& p == Some(Problem::NoWindow) <==> !unnamed && !every && empty
            &&& p == Some(Problem::NoRecipients) <==> !unnamed && !every && !empty && nobody
            &&& p == Some(Problem::NoSender) <==> !unnamed && !every && !empty && !nobody && unsigned
            &&& p == Some(Problem::NotAFraction) <==> !unnamed && !every && !empty && !nobody
                && !unsigned && !share
        }),
{
}

/// Mail goes through the section that is configured, as it is configured, when
/// it has a server, somebody to send to and a sender; and through nothing
/// otherwise.
pub proof fn law_a_complete_section_sends_mail(cfg: Config)
    ensures
        cfg.mail_relay() is Some ==> cfg.mail_relay() == cfg.smtp,
        cfg.mail_relay() is Some <==> cfg.smtp is Some && !crate::text::blank(
            (cfg.smtp->0).server@,
        ) && (cfg.smtp->0).to@.len() > 0 && !crate::text::blank((cfg.smtp->0).from@),
{
}

/// A key is a comment exactly when it starts with two slashes, behind any white
/// space.
pub proof fn law_a_comment_starts_with_two_slashes(key: Seq<char>)
    ensures
        is_comment(key) <==> exists|n: int|
            0 <= n && n + 1 < key.len() && key[n] == '/' && key[n + 1] == '/'
                && crate::text::blank(#[trigger] key.take(n)),
{
    reveal_strlit("//");
    crate::text::law_only_leading_white_space_goes(key);
    crate::text::law_what_white_space_is('/');
    let rest = crate::text::without_leading(key);
    let n = key.len() - rest.len();
    if is_comment(key) {
        assert(rest[0] == "//"@[0] && rest[1] == "//"@[1]);
        assert(key[n] == '/' && key[n + 1] == '/');
        assert(crate::text::blank(key.take(n)));
    }
    if exists|m: int|
        0 <= m && m + 1 < key.len() && key[m] == '/' && key[m + 1] == '/' && crate::text::blank(
            #[trigger] key.take(m),
        ) {
        let m = choose|m: int|
            0 <= m && m + 1 < key.len() && key[m] == '/' && key[m + 1] == '/' && crate::text::blank(
                #[trigger] key.take(m),
            );
        assert(m == n) by {
            if m < n {
                assert(key.take(n)[m] == '/');
            } else if n < m {
                assert(key.take(m)[n] == rest[0]);
            }
        }
        assert("//"@ =~= rest.take(2));
        assert(forall|i: int| 0 <= i < 2 ==> "//"@[i] == rest[i]);
        assert("//"@ =~= rest.subrange(0, "//"@.len() as int));
    }
}

/// Unknown settings are named one by one in the order of the file, by their key
/// and the section that they stand in; a comment is not named.
pub proof fn law_unknown_settings_are_named_in_order(extra: Seq<Setting>, one: Setting)
    ensures
        unknown_names(Seq::<Setting>::empty()) == Seq::<Seq<char>>::empty(),
        is_comment(one.key@) ==> unknown_names(extra.push(one)) == unknown_names(extra),
        !is_comment(one.key@) && one.section@.len() == 0 ==> unknown_names(extra.push(one))
            == unknown_names(extra).push(one.key@),
        !is_comment(one.key@) && one.section@.len() > 0 ==> unknown_names(extra.push(one))
            == unknown_names(extra).push(one.section@ + "."@ + one.key@),
{
    assert(extra.push(one).drop_last() =~= extra);
}

/// A threshold that is written for an interface is the one that it is judged
/// by: the last one written for its address, and the fallback where none is;
/// one for another address changes nothing.
pub proof fn law_an_interface_has_its_own_threshold(
    p: PerRelay,
    entries: Seq<(Seq<char>, RelayThreshold)>,
    name: Seq<char>,
    t: RelayThreshold,
    gi: Ipv4Addr,
    fallback: u64,
    before: PerRelay,
    none: PerRelay,
)
    requires
        p@ == folded(entries.push((name, t))),
        before@ == folded(entries),
        none@ == folded(Seq::empty()),
    ensures
        none.allowed(gi, fallback) == fallback,
        name == gi.dotted() ==> p.allowed(gi, fallback) == t.idle_seconds,
        name != gi.dotted() ==> p.allowed(gi, fallback) == before.allowed(gi, fallback),
{
    assert(entries.push((name, t)).drop_last() =~= entries);
}

/// Entries keep their names and thresholds, one by one.
pub proof fn law_entries_are_one_by_one(entries: Seq<(String, RelayThreshold)>, i: int)
    requires
        0 <= i < entries.len(),
    ensures
        keyed(entries).len() == entries.len(),
        keyed(entries)[i].0 == entries[i].0@,
        keyed(entries)[i].1 == entries[i].1,
{
}

/// The named interfaces are exactly those with a threshold, each once and in
/// ascending order.
pub proof fn law_the_named_are_those_with_a_threshold(
    names: Seq<Seq<char>>,
    thresholds: Map<Seq<char>, RelayThreshold>,
    name: Seq<char>,
)
    requires
        lists_names(names, thresholds),
    ensures
        thresholds.contains_key(name) <==> exists|i: int|
            0 <= i < names.len() && #[trigger] names[i] == name,
        forall|i: int, j: int|
            0 <= i < j < names.len() ==> crate::text::sorts_before(
                #[trigger] names[i],
                #[trigger] names[j],
            ),
        forall|i: int, j: int|
            0 <= i < j < names.len() ==> #[trigger] names[i] != #[trigger] names[j],
{
    assert forall|i: int, j: int| 0 <= i < j < names.len() implies #[trigger] names[i]
        != #[trigger] names[j] by {
        lemma_ascending_once(names, i, j);
    }
}

/// A name within a directory stands behind one slash.
pub proof fn law_one_slash_stands_between(dir: Seq<char>, name: Seq<char>)
    requires
        dir.len() > 0,
        dir.last() != '/',
    ensures
        within(dir, name) == dir + "/"@ + name,
        within(dir + "/"@, name) == dir + "/"@ + name,
        within(Seq::<char>::empty(), name) == name,
{
    reveal_strlit("/");
    assert((dir + "/"@).last() == '/');
    assert(Seq::<char>::empty() + name =~= name);
}

// What each operation gives its caller.

/// What stands where the file says nothing: five minutes for the window and for
/// the report, the standard ports, the usual community, and a prefix.
pub proof fn law_what_is_not_said_is_this(
    window: u64,
    report: u64,
    trap_port: u16,
    smtp_port: u16,
    community: String,
    prefix: String,
    thresholds: Thresholds,
)
    requires
        call_ensures(default_window, (), window),
        call_ensures(default_report, (), report),
        call_ensures(default_trap_port, (), trap_port),
        call_ensures(default_smtp_port, (), smtp_port),
        call_ensures(default_community, (), community),
        call_ensures(default_prefix, (), prefix),
        call_ensures(Thresholds::default, (), thresholds),
    ensures
        window == 5 * 60,
        report == 5 * 60,
        trap_port == 162,
        smtp_port == 25,
        community@ == "public"@,
        prefix@ == "[docsis]"@,
        thresholds.idle_seconds == 60 * 60,
        thresholds.resend_after == 15 * 60,
        thresholds.min_answered@ == "0.75"@,
{
}

/// Every problem is said in its own words.
pub proof fn law_every_problem_has_its_words(cfg: Config, problem: Problem, r: String)
    requires
        call_ensures(Config::explain, (&cfg, problem), r),
    ensures
        problem == Problem::NoInterface ==> r@ == "`interface` must name the interface to watch"@,
        problem == Problem::EveryInterface ==> r@
            == "`interface` must name one interface. \"any\" captures every wire at once, and a monitor that cannot say WHICH wire went quiet cannot say anything worth acting on."@,
        problem == Problem::NoWindow ==> r@
            == "`window` is how many seconds a judgement is made over; it cannot be 0"@,
        problem == Problem::NoRecipients ==> r@
            == "`smtp.server` is set but `smtp.to` names nobody to send to"@,
        problem == Problem::NoSender ==> r@
            == "`smtp.server` is set but `smtp.from` is empty; a relay rejects mail with no sender"@,
        problem == Problem::NotAFraction ==> r@
            == "`min_answered` is a fraction of requests, 0 to 1, not a percentage: "@
            + cfg.thresholds.min_answered@ + " was given"@,
{
}

/// A configuration is accepted exactly when none of the six things is wrong
/// with it.
pub proof fn law_what_checking_accepts(cfg: Config, r: Result<(), Problem>)
    requires
        call_ensures(Config::check, (&cfg,), r),
    ensures
        ({
            let trimmed = crate::text::without_trailing(
                crate::text::without_leading(cfg.interface@),
            );
            let server = cfg.smtp is Some && !crate::text::blank((cfg.smtp->0).server@);
            r is Ok <==> !crate::text::blank(cfg.interface@) && trimmed != "any"@ && cfg.window > 0
                && !(server && ((cfg.smtp->0).to@.len() == 0 || crate::text::blank(
                (cfg.smtp->0).from@,
            ))) && crate::ratio::writes_share(cfg.thresholds.min_answered@)
        }),
        r is Err ==> cfg.problem() == Some(r->Err_0),
{
}

/// The file that is read is one that is there, and where none is read, all the
/// places are named in order.
pub proof fn law_a_file_that_is_read_is_there(
    tried: Vec<String>,
    exists_at: Vec<bool>,
    r: Result<usize, String>,
)
    requires
        tried@.len() == exists_at@.len(),
        call_ensures(pick_path, (&tried, &exists_at), r),
    ensures
        r matches Ok(i) ==> i < tried@.len() && exists_at@[i as int],
        r matches Err(why) ==> why@ == "no docsis_monitor.json found. Tried, in order: "@
            + crate::text::joined(crate::text::texts(tried@), ", "@)
            + ". Every setting this program has lives in that file."@,
{
    reveal_strlit("docsis_monitor.json");
    reveal_strlit("no ");
    reveal_strlit(" found. Tried, in order: ");
    reveal_strlit("no docsis_monitor.json found. Tried, in order: ");
    assert("no "@ + "docsis_monitor.json"@ + " found. Tried, in order: "@
        =~= "no docsis_monitor.json found. Tried, in order: "@);
}

/// The places are the home's `config` directory, where there is a home, and then
/// `/etc`.
pub proof fn law_home_comes_before_etc(home: &str, with_home: Vec<String>, without: Vec<String>)
    requires
        call_ensures(search_paths, (Some(home),), with_home),
        call_ensures(search_paths, (None::<&str>,), without),
    ensures
        with_home@.len() == 2,
        without@.len() == 1,
        with_home@[1]@ == "/etc/docsis_monitor.json"@,
        without@[0]@ == "/etc/docsis_monitor.json"@,
        home@.len() > 0 && home@.last() != '/' ==> with_home@[0]@ == home@
            + "/config/docsis_monitor.json"@,
{
    reveal_strlit("docsis_monitor.json");
    reveal_strlit("/etc");
    reveal_strlit("config");
    reveal_strlit("/");
    reveal_strlit("/etc/docsis_monitor.json");
    reveal_strlit("/config/docsis_monitor.json");
    let a = crate::text::texts(with_home@);
    let b = crate::text::texts(without@);
    assert(a.len() == 2 && b.len() == 1);
    assert(a[0] == with_home@[0]@ && a[1] == with_home@[1]@ && b[0] == without@[0]@);
    assert(within("/etc"@, FILE@) =~= "/etc/docsis_monitor.json"@);
    if home@.len() > 0 && home@.last() != '/' {
        let dir = within(home@, "config"@);
        assert(dir.last() == "config"@.last());
        assert(within(dir, FILE@) =~= home@ + "/config/docsis_monitor.json"@);
    }
}

/// Where a setting is not known, one line counts and names all that are not; and
/// there is no line where all are known.
pub proof fn law_unknown_settings_are_counted_and_named(cfg: Config, r: Option<String>)
    requires
        call_ensures(Config::report_unknown, (&cfg,), r),
    ensures
        ({
            let names = unknown_names(cfg.extra@);
            &&& r is None <==> names.len() == 0
            &&& r matches Some(line) ==> line@ == "ignoring "@ + crate::text::dec(names.len())
                + " setting(s) this program does not know: "@ + crate::text::joined(names, ", "@)
        }),
{
}

/// Mail is sent through the section as it stands, when it is complete.
pub proof fn law_mail_goes_through_a_complete_section(cfg: Config, r: Option<&Smtp>)
    requires
        call_ensures(Config::mail, (&cfg,), r),
    ensures
        r is Some <==> cfg.smtp is Some && !crate::text::blank((cfg.smtp->0).server@)
            && (cfg.smtp->0).to@.len() > 0 && !crate::text::blank((cfg.smtp->0).from@),
        r matches Some(m) ==> *m == cfg.smtp->0,
{
}

} // verus!
