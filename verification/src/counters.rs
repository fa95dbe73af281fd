//! What has been seen lately, and where it was going.
//!
//! A sliding window of one-second buckets. A judgement is made over the last
//! `window` seconds, so the counts have to be able to forget: a total since
//! start-up says nothing about whether the plant is working now.

use vstd::prelude::*;

use crate::addr::{IpAddr, Ipv4Addr};
use crate::packet::Kind;
use crate::ratio::Fraction;

verus! {

/// Who was talking to whom, and through which relay interface.
#[derive(Clone, Copy, Debug, PartialEq, Eq, PartialOrd, Ord, Structural)]
pub struct Flow {
    pub src: IpAddr,
    pub dst: IpAddr,
    /// The gi-address, on a `DHCPv4` packet that was relayed. None on
    /// anything else, including TFTP, which has no such field.
    pub gi: Option<Ipv4Addr>,
}

/// One flow's share of the window.
#[derive(Clone, Copy, Debug)]
pub struct Dest {
    /// Requests, replies, TFTP requests and TFTP sends, in this order.
    pub counts: [u64; 4],
    /// When this flow was last seen.
    pub last: u64,
}

/// A window's worth of counts, ready to be judged or logged.
#[derive(Clone, Copy, Debug, PartialEq, Eq, Structural)]
pub struct Window {
    pub requests: u64,
    pub replies: u64,
    pub tftp_reads: u64,
    pub tftp_sends: u64,
}

/// One flow's counts within one second, or within several.
#[derive(Clone, Copy, Debug)]
struct Row {
    flow: Flow,
    counts: Window,
    last: u64,
}

/// One second's worth: a row for each flow seen in it, in the order of flows.
#[derive(Debug)]
struct Bucket {
    at: u64,
    rows: Vec<Row>,
}

/// The sliding window, and the totals since the program started.
#[derive(Debug)]
pub struct Counters {
    window: u64,
    buckets: Vec<Bucket>,
    total: Window,
}

// Counts.

/// The position of a kind among the four counts.
pub open spec fn slot_of(k: Kind) -> int {
    match k {
        Kind::ClientRequest => 0,
        Kind::ServerReply => 1,
        Kind::TftpRequest => 2,
        Kind::TftpReply => 3,
    }
}

impl Window {
    /// How many packets of one kind.
    pub open spec fn count(self, k: Kind) -> nat {
        match k {
            Kind::ClientRequest => self.requests as nat,
            Kind::ServerReply => self.replies as nat,
            Kind::TftpRequest => self.tftp_reads as nat,
            Kind::TftpReply => self.tftp_sends as nat,
        }
    }

    /// The fraction of client requests that were answered: none of them when
    /// nothing was asked, and more than all of them when a server answers
    /// twice.
    pub fn answered(self) -> (r: Fraction)
        ensures
            r == (if self.requests == 0 {
                Fraction { num: 0, den: 1 }
            } else {
                Fraction { num: self.replies, den: self.requests }
            }),
    {
        if self.requests == 0 {
            Fraction { num: 0, den: 1 }
        } else {
            Fraction { num: self.replies, den: self.requests }
        }
    }

    /// A window with one packet in it.
    fn one(kind: Kind) -> (r: Window)
        ensures
            forall|k: Kind| #[trigger]
                r.count(k) == (if k == kind {
                    1nat
                } else {
                    0nat
                }),
    {
        let mut r = Window { requests: 0, replies: 0, tftp_reads: 0, tftp_sends: 0 };
        match kind {
            Kind::ClientRequest => {
                r.requests = 1;
            },
            Kind::ServerReply => {
                r.replies = 1;
            },
            Kind::TftpRequest => {
                r.tftp_reads = 1;
            },
            Kind::TftpReply => {
                r.tftp_sends = 1;
            },
        }
        r
    }

    /// Two windows counted together.
    fn plus(self, other: Window) -> (r: Window)
        requires
            forall|k: Kind| #[trigger] self.count(k) + other.count(k) <= u64::MAX,
        ensures
            forall|k: Kind| #[trigger] r.count(k) == self.count(k) + other.count(k),
    {
        assert(self.count(Kind::ClientRequest) + other.count(Kind::ClientRequest) <= u64::MAX);
        assert(self.count(Kind::ServerReply) + other.count(Kind::ServerReply) <= u64::MAX);
        assert(self.count(Kind::TftpRequest) + other.count(Kind::TftpRequest) <= u64::MAX);
        assert(self.count(Kind::TftpReply) + other.count(Kind::TftpReply) <= u64::MAX);
        Window {
            requests: self.requests + other.requests,
            replies: self.replies + other.replies,
            tftp_reads: self.tftp_reads + other.tftp_reads,
            tftp_sends: self.tftp_sends + other.tftp_sends,
        }
    }
}

impl Default for Window {
    fn default() -> (r: Window)
        ensures
            r == (Window { requests: 0, replies: 0, tftp_reads: 0, tftp_sends: 0 }),
    {
        Window { requests: 0, replies: 0, tftp_reads: 0, tftp_sends: 0 }
    }
}

impl Default for Dest {
    fn default() -> (r: Dest)
        ensures
            r.counts@ == seq![0u64, 0, 0, 0],
            r.last == 0,
    {
        let r = Dest { counts: [0, 0, 0, 0], last: 0 };
        assert(r.counts@ =~= seq![0u64, 0, 0, 0]);
        r
    }
}

impl Dest {
    /// Everything counted on this flow, as a number without bound.
    pub open spec fn packets(&self) -> nat {
        self.counts@[0] as nat + self.counts@[1] as nat + self.counts@[2] as nat
            + self.counts@[3] as nat
    }

    /// Everything counted on this flow.
    pub fn total(&self) -> (r: u64)
        requires
            self.packets() <= u64::MAX,
        ensures
            r == self.packets(),
    {
        self.counts[0] + self.counts[1] + self.counts[2] + self.counts[3]
    }

    /// The same, where it may be more than a count can hold.
    fn packets_wide(&self) -> (r: u128)
        ensures
            r == self.packets(),
    {
        self.counts[0] as u128 + self.counts[1] as u128 + self.counts[2] as u128
            + self.counts[3] as u128
    }
}

// The order of flows.

/// Where a gi-address sorts: none first, then by address.
pub open spec fn gi_rank(gi: Option<Ipv4Addr>) -> nat {
    match gi {
        None => 0,
        Some(g) => 1 + g.bits as nat,
    }
}

impl Flow {
    /// Where a flow sorts: by source, then by destination, then by gi-address.
    #[verifier::opaque]
    pub open spec fn rank(self) -> nat {
        (self.src.rank() * 0x4_0000_0000_0000_0000_0000_0000_0000_0000 + self.dst.rank())
            * 0x2_0000_0000 + gi_rank(self.gi)
    }

    /// Whether this flow sorts before another.
    pub fn before(&self, other: &Flow) -> (r: bool)
        ensures
            r == (self.rank() < other.rank()),
    {
        reveal(Flow::rank);
        if self.src != other.src {
            self.src.before(&other.src)
        } else if self.dst != other.dst {
            self.dst.before(&other.dst)
        } else {
            match (self.gi, other.gi) {
                (None, Some(_)) => true,
                (Some(a), Some(b)) => a.bits < b.bits,
                _ => false,
            }
        }
    }
}

/// Two flows that sort at the same place are the same flow.
pub proof fn law_flows_are_told_apart(a: Flow, b: Flow)
    ensures
        a.rank() == b.rank() ==> a == b,
{
    reveal(Flow::rank);
}

// Rows of flows.

/// Rows in the order of their flows, each flow once.
spec fn in_rank_order(rows: Seq<Row>) -> bool {
    forall|i: int, j: int|
        0 <= i < j < rows.len() ==> (#[trigger] rows[i]).flow.rank() < (
        #[trigger] rows[j]).flow.rank()
}

/// Whether a flow has a row.
spec fn has_row(rows: Seq<Row>, flow: Flow) -> bool {
    exists|i: int| 0 <= i < rows.len() && (#[trigger] rows[i]).flow == flow
}

/// The packets of one kind in the rows of the flows that are wanted.
spec fn tally(rows: Seq<Row>, want: spec_fn(Flow) -> bool, k: Kind) -> nat
    decreases rows.len(),
{
    if rows.len() == 0 {
        0
    } else {
        tally(rows.drop_last(), want, k) + (if want(rows.last().flow) {
            rows.last().counts.count(k)
        } else {
            0
        })
    }
}

/// What one row adds to a tally.
spec fn share(row: Row, want: spec_fn(Flow) -> bool, k: Kind) -> nat {
    if want(row.flow) {
        row.counts.count(k)
    } else {
        0
    }
}

/// Wanting exactly one flow.
pub open spec fn only(flow: Flow) -> spec_fn(Flow) -> bool {
    |f: Flow| f == flow
}

/// Wanting every flow.
pub open spec fn any_flow() -> spec_fn(Flow) -> bool {
    |f: Flow| true
}

/// Wanting the flows that went through one relay interface.
pub open spec fn through(gi: Ipv4Addr) -> spec_fn(Flow) -> bool {
    |f: Flow| f.gi == Some(gi)
}

proof fn lemma_tally_insert(
    rows: Seq<Row>,
    at: int,
    row: Row,
    want: spec_fn(Flow) -> bool,
    k: Kind,
)
    requires
        0 <= at <= rows.len(),
    ensures
        tally(rows.insert(at, row), want, k) == tally(rows, want, k) + share(row, want, k),
    decreases rows.len(),
{
    let more = rows.insert(at, row);
    if at == rows.len() {
        assert(more.drop_last() =~= rows);
    } else {
        assert(more.drop_last() =~= rows.drop_last().insert(at, row));
        assert(more.last() == rows.last());
        lemma_tally_insert(rows.drop_last(), at, row, want, k);
    }
}

proof fn lemma_tally_update(
    rows: Seq<Row>,
    at: int,
    row: Row,
    want: spec_fn(Flow) -> bool,
    k: Kind,
)
    requires
        0 <= at < rows.len(),
    ensures
        tally(rows.update(at, row), want, k) + share(rows[at], want, k) == tally(rows, want, k)
            + share(row, want, k),
    decreases rows.len(),
{
    let changed = rows.update(at, row);
    if at == rows.len() - 1 {
        assert(changed.drop_last() =~= rows.drop_last());
    } else {
        assert(changed.drop_last() =~= rows.drop_last().update(at, row));
        assert(changed.last() == rows.last());
        lemma_tally_update(rows.drop_last(), at, row, want, k);
    }
}

/// A row is part of every tally that wants its flow.
proof fn lemma_tally_holds(rows: Seq<Row>, at: int, want: spec_fn(Flow) -> bool, k: Kind)
    requires
        0 <= at < rows.len(),
        want(rows[at].flow),
    ensures
        rows[at].counts.count(k) <= tally(rows, want, k),
    decreases rows.len(),
{
    if at < rows.len() - 1 {
        assert(rows.drop_last()[at] == rows[at]);
        lemma_tally_holds(rows.drop_last(), at, want, k);
    }
}

/// Wanting more flows never tallies less.
proof fn lemma_tally_grows(
    rows: Seq<Row>,
    fewer: spec_fn(Flow) -> bool,
    more: spec_fn(Flow) -> bool,
    k: Kind,
)
    requires
        forall|f: Flow| #[trigger] fewer(f) ==> more(f),
    ensures
        tally(rows, fewer, k) <= tally(rows, more, k),
    decreases rows.len(),
{
    if rows.len() > 0 {
        assert(fewer(rows.last().flow) ==> more(rows.last().flow));
        lemma_tally_grows(rows.drop_last(), fewer, more, k);
    }
}

/// With each flow once, the tally of one flow is its row.
proof fn lemma_tally_only(rows: Seq<Row>, flow: Flow, k: Kind)
    requires
        in_rank_order(rows),
    ensures
        !has_row(rows, flow) ==> tally(rows, only(flow), k) == 0,
        forall|i: int|
            0 <= i < rows.len() && (#[trigger] rows[i]).flow == flow ==> tally(
                rows,
                only(flow),
                k,
            ) == rows[i].counts.count(k),
    decreases rows.len(),
{
    if rows.len() > 0 {
        let less = rows.drop_last();
        assert forall|i: int, j: int| 0 <= i < j < less.len() implies (
        #[trigger] less[i]).flow.rank() < (#[trigger] less[j]).flow.rank() by {
            assert(less[i] == rows[i] && less[j] == rows[j]);
        }
        lemma_tally_only(less, flow, k);
        if rows.last().flow == flow {
            if has_row(less, flow) {
                let i = choose|i: int| 0 <= i < less.len() && (#[trigger] less[i]).flow == flow;
                assert(rows[i].flow.rank() < rows[rows.len() - 1].flow.rank());
            }
            assert forall|i: int|
                0 <= i < rows.len() && (#[trigger] rows[i]).flow == flow implies i == rows.len()
                - 1 by {
                if i < rows.len() - 1 {
                    assert(rows[i].flow.rank() < rows[rows.len() - 1].flow.rank());
                }
            }
        } else {
            if has_row(less, flow) {
                let i = choose|i: int| 0 <= i < less.len() && (#[trigger] less[i]).flow == flow;
                assert(rows[i].flow == flow);
            }
            assert forall|i: int| 0 <= i < rows.len() && (#[trigger] rows[i]).flow == flow implies tally(
                rows,
                only(flow),
                k,
            ) == rows[i].counts.count(k) by {
                assert(i < rows.len() - 1);
                assert(less[i] == rows[i]);
            }
        }
    }
}

/// Where a flow's row is, or where it belongs.
fn locate(rows: &Vec<Row>, flow: &Flow) -> (r: usize)
    requires
        in_rank_order(rows@),
    ensures
        r <= rows@.len(),
        forall|i: int| 0 <= i < r ==> (#[trigger] rows@[i]).flow.rank() < flow.rank(),
        forall|i: int| r <= i < rows@.len() ==> (#[trigger] rows@[i]).flow.rank() >= flow.rank(),
{
    let mut low: usize = 0;
    let mut high: usize = rows.len();
    while low < high
        invariant
            low <= high <= rows@.len(),
            in_rank_order(rows@),
            forall|i: int| 0 <= i < low ==> (#[trigger] rows@[i]).flow.rank() < flow.rank(),
            forall|i: int|
                high <= i < rows@.len() ==> (#[trigger] rows@[i]).flow.rank() >= flow.rank(),
        decreases high - low,
    {
        let mid: usize = low + (high - low) / 2;
        if rows[mid].flow.before(flow) {
            assert forall|i: int| 0 <= i < mid + 1 implies (#[trigger] rows@[i]).flow.rank()
                < flow.rank() by {
                if i < mid {
                    assert(rows@[i].flow.rank() < rows@[mid as int].flow.rank());
                }
            }
            low = mid + 1;
        } else {
            assert forall|i: int| mid <= i < rows@.len() implies (#[trigger] rows@[i]).flow.rank()
                >= flow.rank() by {
                if i > mid {
                    assert(rows@[mid as int].flow.rank() < rows@[i].flow.rank());
                }
            }
            high = mid;
        }
    }
    low
}

/// Counts a row in: into the row of its flow, or as a row of its own. The
/// flow's row then says when the newcomer was last seen.
fn count_in(rows: &mut Vec<Row>, row: Row)
    requires
        in_rank_order(old(rows)@),
        forall|k: Kind| #[trigger]
            tally(old(rows)@, only(row.flow), k) + row.counts.count(k) <= u64::MAX,
    ensures
        in_rank_order(final(rows)@),
        forall|want: spec_fn(Flow) -> bool, k: Kind| #[trigger]
            tally(final(rows)@, want, k) == tally(old(rows)@, want, k) + share(row, want, k),
        forall|f: Flow| #[trigger]
            has_row(final(rows)@, f) <==> has_row(old(rows)@, f) || f == row.flow,
        forall|i: int|
            0 <= i < final(rows)@.len() ==> if (#[trigger] final(rows)@[i]).flow == row.flow {
                final(rows)@[i].last == row.last
            } else {
                old(rows)@.contains(final(rows)@[i])
            },
{
    let ghost before = rows@;
    let at: usize = locate(rows, &row.flow);
    if at < rows.len() && rows[at].flow == row.flow {
        let there = rows[at];
        proof {
            assert forall|k: Kind| #[trigger] there.counts.count(k) + row.counts.count(k)
                <= u64::MAX by {
                lemma_tally_holds(before, at as int, only(row.flow), k);
                assert(tally(before, only(row.flow), k) + row.counts.count(k) <= u64::MAX);
            }
        }
        let both = Row { flow: row.flow, counts: there.counts.plus(row.counts), last: row.last };
        rows[at] = both;
        let ghost after = rows@;
        proof {
            assert(after =~= before.update(at as int, both));
            assert forall|want: spec_fn(Flow) -> bool, k: Kind| #[trigger]
                tally(after, want, k) == tally(before, want, k) + share(row, want, k) by {
                lemma_tally_update(before, at as int, both, want, k);
                assert(both.counts.count(k) == there.counts.count(k) + row.counts.count(k));
            }
            assert forall|f: Flow| #[trigger] has_row(after, f) <==> has_row(before, f) || f
                == row.flow by {
                if has_row(after, f) {
                    let i = choose|i: int| 0 <= i < after.len() && (#[trigger] after[i]).flow == f;
                    assert(before[i].flow == f);
                }
                if has_row(before, f) {
                    let i = choose|i: int| 0 <= i < before.len() && (#[trigger] before[i]).flow == f;
                    assert(after[i].flow == f);
                }
                assert(after[at as int].flow == row.flow);
            }
            assert forall|i: int| 0 <= i < after.len() implies if (#[trigger] after[i]).flow
                == row.flow {
                after[i].last == row.last
            } else {
                before.contains(after[i])
            } by {
                if i == at {
                } else {
                    assert(after[i] == before[i]);
                    if after[i].flow == row.flow {
                        if i < at {
                            assert(before[i].flow.rank() < before[at as int].flow.rank());
                        } else {
                            assert(before[at as int].flow.rank() < before[i].flow.rank());
                        }
                    }
                }
            }
            assert forall|i: int, j: int| 0 <= i < j < after.len() implies (
            #[trigger] after[i]).flow.rank() < (#[trigger] after[j]).flow.rank() by {
                assert(before[i].flow.rank() < before[j].flow.rank());
            }
        }
    } else {
        rows.insert(at, row);
        let ghost after = rows@;
        proof {
            assert(after =~= before.insert(at as int, row));
            assert forall|i: int| at <= i < before.len() implies row.flow.rank() < (
            #[trigger] before[i]).flow.rank() by {
                law_flows_are_told_apart(before[at as int].flow, row.flow);
                if i > at {
                    assert(before[at as int].flow.rank() < before[i].flow.rank());
                }
            }
            assert forall|want: spec_fn(Flow) -> bool, k: Kind| #[trigger]
                tally(after, want, k) == tally(before, want, k) + share(row, want, k) by {
                lemma_tally_insert(before, at as int, row, want, k);
            }
            assert forall|f: Flow| #[trigger] has_row(after, f) <==> has_row(before, f) || f
                == row.flow by {
                if has_row(after, f) {
                    let i = choose|i: int| 0 <= i < after.len() && (#[trigger] after[i]).flow == f;
                    if i < at {
                        assert(before[i].flow == f);
                    } else if i > at {
                        assert(before[i - 1].flow == f);
                    }
                }
                if has_row(before, f) {
                    let i = choose|i: int| 0 <= i < before.len() && (#[trigger] before[i]).flow == f;
                    if i < at {
                        assert(after[i].flow == f);
                    } else {
                        assert(after[i + 1].flow == f);
                    }
                }
                assert(after[at as int].flow == row.flow);
            }
            assert forall|i: int| 0 <= i < after.len() implies if (#[trigger] after[i]).flow
                == row.flow {
                after[i].last == row.last
            } else {
                before.contains(after[i])
            } by {
                if i < at {
                    assert(after[i] == before[i]);
                } else if i > at {
                    assert(after[i] == before[i - 1]);
                }
            }
            assert forall|i: int, j: int| 0 <= i < j < after.len() implies (
            #[trigger] after[i]).flow.rank() < (#[trigger] after[j]).flow.rank() by {
                if j < at {
                    assert(before[i].flow.rank() < before[j].flow.rank());
                } else if i < at && j == at {
                    assert(after[i] == before[i]);
                } else if i < at {
                    assert(before[i].flow.rank() < before[j - 1].flow.rank());
                } else if i == at {
                    assert(after[j] == before[j - 1]);
                } else {
                    assert(before[i - 1].flow.rank() < before[j - 1].flow.rank());
                }
            }
        }
    }
}

// Buckets of rows.

/// The packets of one kind, on the flows that are wanted, that the buckets
/// hold from after second `c`.
spec fn held(buckets: Seq<Bucket>, want: spec_fn(Flow) -> bool, k: Kind, c: int) -> nat
    decreases buckets.len(),
{
    if buckets.len() == 0 {
        0
    } else {
        held(buckets.drop_last(), want, k, c) + (if buckets.last().at > c {
            tally(buckets.last().rows@, want, k)
        } else {
            0
        })
    }
}

/// When a flow was last recorded, as far as the buckets from after second `c`
/// know.
spec fn last_held(buckets: Seq<Bucket>, flow: Flow, c: int) -> Option<u64>
    decreases buckets.len(),
{
    if buckets.len() == 0 {
        None
    } else if buckets.last().at > c && has_row(buckets.last().rows@, flow) {
        Some(buckets.last().at)
    } else {
        last_held(buckets.drop_last(), flow, c)
    }
}

/// Taking out a bucket that `c` leaves out changes nothing.
proof fn lemma_held_remove(
    buckets: Seq<Bucket>,
    at: int,
    want: spec_fn(Flow) -> bool,
    k: Kind,
    flow: Flow,
    c: int,
)
    requires
        0 <= at < buckets.len(),
        buckets[at].at <= c,
    ensures
        held(buckets.remove(at), want, k, c) == held(buckets, want, k, c),
        last_held(buckets.remove(at), flow, c) == last_held(buckets, flow, c),
    decreases buckets.len(),
{
    let less = buckets.remove(at);
    if at == buckets.len() - 1 {
        assert(less =~= buckets.drop_last());
    } else {
        assert(less.drop_last() =~= buckets.drop_last().remove(at));
        assert(less.last() == buckets.last());
        lemma_held_remove(buckets.drop_last(), at, want, k, flow, c);
    }
}

/// Leaving out buckets in front that `c` leaves out changes nothing.
proof fn lemma_held_skip(
    buckets: Seq<Bucket>,
    n: int,
    want: spec_fn(Flow) -> bool,
    k: Kind,
    flow: Flow,
    c: int,
)
    requires
        0 <= n <= buckets.len(),
        forall|i: int| 0 <= i < n ==> (#[trigger] buckets[i]).at <= c,
    ensures
        held(buckets.skip(n), want, k, c) == held(buckets, want, k, c),
        last_held(buckets.skip(n), flow, c) == last_held(buckets, flow, c),
    decreases n,
{
    if n == 0 {
        assert(buckets.skip(0) =~= buckets);
    } else {
        let less = buckets.remove(0);
        assert(buckets[0].at <= c);
        lemma_held_remove(buckets, 0, want, k, flow, c);
        assert forall|i: int| 0 <= i < n - 1 implies (#[trigger] less[i]).at <= c by {
            assert(less[i] == buckets[i + 1]);
        }
        lemma_held_skip(less, n - 1, want, k, flow, c);
        assert(less.skip(n - 1) =~= buckets.skip(n));
    }
}

/// When every bucket is from after `c`, asking from earlier changes nothing.
proof fn lemma_held_all_after(
    buckets: Seq<Bucket>,
    want: spec_fn(Flow) -> bool,
    k: Kind,
    flow: Flow,
    c: int,
    earlier: int,
)
    requires
        forall|i: int| 0 <= i < buckets.len() ==> (#[trigger] buckets[i]).at > c,
        earlier <= c,
    ensures
        held(buckets, want, k, earlier) == held(buckets, want, k, c),
        last_held(buckets, flow, earlier) == last_held(buckets, flow, c),
    decreases buckets.len(),
{
    if buckets.len() > 0 {
        let less = buckets.drop_last();
        assert forall|i: int| 0 <= i < less.len() implies (#[trigger] less[i]).at > c by {
            assert(less[i] == buckets[i]);
        }
        assert(buckets[buckets.len() - 1].at > c);
        lemma_held_all_after(less, want, k, flow, c, earlier);
    }
}

/// Asking from later never holds more, and wanting fewer flows neither.
proof fn lemma_held_shrinks(
    buckets: Seq<Bucket>,
    fewer: spec_fn(Flow) -> bool,
    more: spec_fn(Flow) -> bool,
    k: Kind,
    c: int,
    earlier: int,
)
    requires
        earlier <= c,
        forall|f: Flow| #[trigger] fewer(f) ==> more(f),
    ensures
        held(buckets, fewer, k, c) <= held(buckets, more, k, earlier),
    decreases buckets.len(),
{
    if buckets.len() > 0 {
        lemma_held_shrinks(buckets.drop_last(), fewer, more, k, c, earlier);
        lemma_tally_grows(buckets.last().rows@, fewer, more, k);
    }
}

/// Buckets at strictly later and later seconds between `low` and `high` are
/// no more than there are seconds.
proof fn lemma_seconds_between(buckets: Seq<Bucket>, low: int, high: int)
    requires
        forall|i: int, j: int|
            0 <= i < j < buckets.len() ==> (#[trigger] buckets[i]).at < (#[trigger] buckets[j]).at,
        forall|i: int| 0 <= i < buckets.len() ==> low < (#[trigger] buckets[i]).at <= high,
        low <= high,
    ensures
        buckets.len() <= high - low,
    decreases buckets.len(),
{
    if buckets.len() > 0 {
        let less = buckets.drop_last();
        let last = buckets[buckets.len() - 1];
        assert forall|i: int, j: int| 0 <= i < j < less.len() implies (#[trigger] less[i]).at < (
        #[trigger] less[j]).at by {
            assert(buckets[i].at < buckets[j].at);
        }
        assert forall|i: int| 0 <= i < less.len() implies low < (#[trigger] less[i]).at <= last.at
            - 1 by {
            assert(buckets[i].at < buckets[buckets.len() - 1].at);
        }
        lemma_seconds_between(less, low, last.at - 1);
    }
}

/// The last second that a window of `window` seconds leaves out at `now`.
pub open spec fn cutoff_at(window: u64, now: u64) -> int {
    if now >= window {
        now - window
    } else {
        0
    }
}

/// The later of two seconds.
pub open spec fn later(a: int, b: int) -> int {
    if a >= b {
        a
    } else {
        b
    }
}

impl Counters {
    /// How many seconds the window is long.
    pub closed spec fn span(&self) -> u64 {
        self.window
    }

    /// How many packets of one kind, on the flows that are wanted, are
    /// remembered from after second `c`.
    pub closed spec fn seen(&self, want: spec_fn(Flow) -> bool, k: Kind, c: int) -> nat {
        held(self.buckets@, want, k, c)
    }

    /// When a flow was last recorded, as far as is remembered from after
    /// second `c`.
    pub closed spec fn last_seen(&self, flow: Flow, c: int) -> Option<u64> {
        last_held(self.buckets@, flow, c)
    }

    /// Everything recorded since the start.
    pub closed spec fn in_all(&self) -> Window {
        self.total
    }

    /// How many buckets are kept.
    pub closed spec fn bucket_count(&self) -> nat {
        self.buckets@.len()
    }

    /// Whether the buckets kept are at later and later seconds, none after
    /// `now`. It is so as long as the clock never steps back.
    pub closed spec fn in_order_until(&self, now: u64) -> bool {
        &&& forall|i: int, j: int|
            0 <= i < j < self.buckets@.len() ==> (#[trigger] self.buckets@[i]).at < (
            #[trigger] self.buckets@[j]).at
        &&& forall|i: int| 0 <= i < self.buckets@.len() ==> (#[trigger] self.buckets@[i]).at <= now
    }

    /// What every operation keeps: a window of at least a second, rows in
    /// order, and nothing remembered that was not counted in all.
    pub closed spec fn well_formed(&self) -> bool {
        &&& self.window >= 1
        &&& forall|i: int| 0 <= i < self.buckets@.len() ==> bucket_ok(#[trigger] self.buckets@[i])
        &&& forall|k: Kind|
            held(self.buckets@, any_flow(), k, -1) <= #[trigger] self.total.count(k)
    }
}

/// Rows in order.
spec fn bucket_ok(b: Bucket) -> bool {
    in_rank_order(b.rows@)
}

/// Whether forgetting at `now` took one state of the counters to another:
/// nothing from within the window is lost, and nothing else is kept.
pub open spec fn expired(before: Counters, after: Counters, now: u64) -> bool {
    let cutoff = cutoff_at(before.span(), now);
    &&& after.span() == before.span()
    &&& after.in_all() == before.in_all()
    &&& forall|want: spec_fn(Flow) -> bool, k: Kind, c: int| #[trigger]
        after.seen(want, k, c) == before.seen(want, k, later(c, cutoff))
    &&& forall|f: Flow, c: int| #[trigger]
        after.last_seen(f, c) == before.last_seen(f, later(c, cutoff))
}

/// Whether recording one packet took one state of the counters to another:
/// what the window leaves out is forgotten, and the packet is counted once.
pub open spec fn added(
    before: Counters,
    after: Counters,
    kind: Kind,
    flow: Flow,
    now: u64,
) -> bool {
    let cutoff = cutoff_at(before.span(), now);
    &&& after.span() == before.span()
    &&& forall|k: Kind| #[trigger]
        after.in_all().count(k) == before.in_all().count(k) + (if k == kind {
            1nat
        } else {
            0nat
        })
    &&& forall|want: spec_fn(Flow) -> bool, k: Kind, c: int| #[trigger]
        after.seen(want, k, c) == before.seen(want, k, later(c, cutoff)) + (if want(flow) && k
            == kind && now > c {
            1nat
        } else {
            0nat
        })
    &&& forall|f: Flow, c: int| #[trigger]
        after.last_seen(f, c) == (if f == flow && now > c {
            Some(now)
        } else {
            before.last_seen(f, later(c, cutoff))
        })
}

impl Counters {
    /// Nothing seen yet. A window shorter than a second is a second.
    pub fn new(window: u64) -> (r: Counters)
        ensures
            r.well_formed(),
            r.span() == (if window == 0 {
                1
            } else {
                window
            }),
            r.in_all() == (Window { requests: 0, replies: 0, tftp_reads: 0, tftp_sends: 0 }),
            forall|want: spec_fn(Flow) -> bool, k: Kind, c: int| #[trigger] r.seen(want, k, c) == 0,
            forall|f: Flow, c: int| #[trigger] r.last_seen(f, c) is None,
            r.bucket_count() == 0,
            forall|now: u64| #[trigger] r.in_order_until(now),
    {
        Counters {
            window: if window == 0 {
                1
            } else {
                window
            },
            buckets: Vec::new(),
            total: Window { requests: 0, replies: 0, tftp_reads: 0, tftp_sends: 0 },
        }
    }

    /// Drops everything older than the window.
    pub fn expire(&mut self, now: u64)
        requires
            old(self).well_formed(),
        ensures
            final(self).well_formed(),
            expired(*old(self), *final(self), now),
            final(self).bucket_count() <= old(self).bucket_count(),
            forall|t: u64| #[trigger]
                old(self).in_order_until(t) ==> final(self).in_order_until(t),
    {
        let cutoff: u64 = now.saturating_sub(self.window);
        self.drop_until(cutoff);
    }

    /// Drops every bucket up to a second.
    fn drop_until(&mut self, cutoff: u64)
        requires
            old(self).well_formed(),
        ensures
            final(self).well_formed(),
            final(self).window == old(self).window,
            final(self).total == old(self).total,
            forall|i: int|
                0 <= i < final(self).buckets@.len() ==> (#[trigger] final(self).buckets@[i]).at
                    > cutoff,
            forall|want: spec_fn(Flow) -> bool, k: Kind, c: int| #[trigger]
                final(self).seen(want, k, c) == old(self).seen(want, k, later(c, cutoff as int)),
            forall|f: Flow, c: int| #[trigger]
                final(self).last_seen(f, c) == old(self).last_seen(f, later(c, cutoff as int)),
            final(self).bucket_count() <= old(self).bucket_count(),
            forall|t: u64| #[trigger]
                old(self).in_order_until(t) ==> final(self).in_order_until(t),
    {
        let ghost before = self.buckets@;
        // The old ones are in front, unless the clock stepped back.
        let mut gone: usize = 0;
        while gone < self.buckets.len() && self.buckets[gone].at <= cutoff
            invariant
                self.buckets@ == before,
                gone <= before.len(),
                forall|j: int| 0 <= j < gone ==> (#[trigger] before[j]).at <= cutoff,
            decreases before.len() - gone,
        {
            gone = gone + 1;
        }
        let kept = self.buckets.split_off(gone);
        self.buckets = kept;
        proof {
            let rest = self.buckets@;
            assert(rest =~= before.skip(gone as int));
            assert forall|want: spec_fn(Flow) -> bool, k: Kind, c: int|
                c >= cutoff implies #[trigger] held(rest, want, k, c) == held(
                before,
                want,
                k,
                c,
            ) by {
                lemma_held_skip(before, gone as int, want, k, arbitrary(), c);
            }
            assert forall|f: Flow, c: int| c >= cutoff implies #[trigger] last_held(rest, f, c)
                == last_held(before, f, c) by {
                lemma_held_skip(before, gone as int, any_flow(), Kind::ClientRequest, f, c);
            }
            assert forall|j: int| 0 <= j < rest.len() implies bucket_ok(#[trigger] rest[j]) by {
                assert(bucket_ok(before[gone + j]));
            }
            assert forall|t: u64| #[trigger] old(self).in_order_until(t) implies self.in_order_until(
                t,
            ) by {
                assert forall|i: int, j: int| 0 <= i < j < rest.len() implies (
                #[trigger] rest[i]).at < (#[trigger] rest[j]).at by {
                    assert(before[gone + i].at < before[gone + j].at);
                }
                assert forall|j: int| 0 <= j < rest.len() implies (#[trigger] rest[j]).at <= t by {
                    assert(before[gone + j].at <= t);
                }
            }
        }
        let mut i: usize = 0;
        while i < self.buckets.len()
            invariant
                old(self).well_formed(),
                before == old(self).buckets@,
                self.window == old(self).window,
                self.total == old(self).total,
                i <= self.buckets@.len() <= before.len(),
                forall|j: int| 0 <= j < i ==> (#[trigger] self.buckets@[j]).at > cutoff,
                forall|j: int|
                    0 <= j < self.buckets@.len() ==> bucket_ok(#[trigger] self.buckets@[j]),
                forall|want: spec_fn(Flow) -> bool, k: Kind, c: int|
                    c >= cutoff ==> #[trigger] held(self.buckets@, want, k, c) == held(
                        before,
                        want,
                        k,
                        c,
                    ),
                forall|f: Flow, c: int|
                    c >= cutoff ==> #[trigger] last_held(self.buckets@, f, c) == last_held(
                        before,
                        f,
                        c,
                    ),
                forall|t: u64| #[trigger]
                    old(self).in_order_until(t) ==> self.in_order_until(t),
            decreases self.buckets@.len() - i,
        {
            if self.buckets[i].at > cutoff {
                i = i + 1;
            } else {
                let ghost now_held = self.buckets@;
                let _gone = self.buckets.remove(i);
                proof {
                    let less = self.buckets@;
                    assert(less =~= now_held.remove(i as int));
                    assert forall|want: spec_fn(Flow) -> bool, k: Kind, c: int|
                        c >= cutoff implies #[trigger] held(less, want, k, c) == held(
                        before,
                        want,
                        k,
                        c,
                    ) by {
                        let f = arbitrary::<Flow>();
                        lemma_held_remove(now_held, i as int, want, k, f, c);
                        assert(held(now_held, want, k, c) == held(before, want, k, c));
                    }
                    assert forall|f: Flow, c: int| c >= cutoff implies #[trigger] last_held(
                        less,
                        f,
                        c,
                    ) == last_held(before, f, c) by {
                        lemma_held_remove(
                            now_held,
                            i as int,
                            any_flow(),
                            Kind::ClientRequest,
                            f,
                            c,
                        );
                        assert(last_held(now_held, f, c) == last_held(before, f, c));
                    }
                    assert forall|j: int| 0 <= j < less.len() implies bucket_ok(
                        #[trigger] less[j],
                    ) by {
                        if j < i {
                            assert(bucket_ok(now_held[j]));
                        } else {
                            assert(bucket_ok(now_held[j + 1]));
                        }
                    }
                    assert forall|j: int| 0 <= j < i implies (#[trigger] less[j]).at > cutoff by {
                        assert(now_held[j].at > cutoff);
                    }
                }
            }
        }
        let ghost kept = self.buckets@;
        proof {
            assert forall|want: spec_fn(Flow) -> bool, k: Kind, c: int| #[trigger]
                self.seen(want, k, c) == old(self).seen(want, k, later(c, cutoff as int)) by {
                if c < cutoff {
                    lemma_held_all_after(kept, want, k, arbitrary(), cutoff as int, c);
                }
                assert(held(kept, want, k, later(c, cutoff as int)) == held(
                    before,
                    want,
                    k,
                    later(c, cutoff as int),
                ));
            }
            assert forall|f: Flow, c: int| #[trigger]
                self.last_seen(f, c) == old(self).last_seen(f, later(c, cutoff as int)) by {
                if c < cutoff {
                    lemma_held_all_after(
                        kept,
                        any_flow(),
                        Kind::ClientRequest,
                        f,
                        cutoff as int,
                        c,
                    );
                }
                assert(last_held(kept, f, later(c, cutoff as int)) == last_held(
                    before,
                    f,
                    later(c, cutoff as int),
                ));
            }
            assert forall|k: Kind| held(kept, any_flow(), k, -1) <= #[trigger] self.total.count(
                k,
            ) by {
                assert(self.seen(any_flow(), k, -1) == old(self).seen(
                    any_flow(),
                    k,
                    later(-1, cutoff as int),
                ));
                lemma_held_shrinks(before, any_flow(), any_flow(), k, later(-1, cutoff as int), -1);
                assert(held(before, any_flow(), k, -1) <= old(self).total.count(k));
            }
        }
    }
}

/// The newest bucket is part of what is held.
proof fn lemma_newest_is_held(buckets: Seq<Bucket>, want: spec_fn(Flow) -> bool, k: Kind, c: int)
    requires
        buckets.len() > 0,
        buckets.last().at > c,
    ensures
        tally(buckets.last().rows@, want, k) <= held(buckets, want, k, c),
{
}

impl Counters {
    /// Puts one packet into the bucket of its second, which is the newest one
    /// or a new one.
    fn record(&mut self, kind: Kind, flow: Flow, now: u64)
        requires
            old(self).well_formed(),
            old(self).total.count(kind) < u64::MAX,
        ensures
            final(self).window == old(self).window,
            final(self).total == old(self).total,
            forall|i: int|
                0 <= i < final(self).buckets@.len() ==> bucket_ok(
                    #[trigger] final(self).buckets@[i],
                ),
            forall|want: spec_fn(Flow) -> bool, k: Kind, c: int| #[trigger]
                final(self).seen(want, k, c) == old(self).seen(want, k, c) + (if want(flow) && k
                    == kind && now > c {
                    1nat
                } else {
                    0nat
                }),
            forall|f: Flow, c: int| #[trigger]
                final(self).last_seen(f, c) == (if f == flow && now > c {
                    Some(now)
                } else {
                    old(self).last_seen(f, c)
                }),
            old(self).in_order_until(now) ==> final(self).in_order_until(now),
            final(self).buckets@.len() == old(self).buckets@.len() + 1 || final(self).buckets@.len()
                == old(self).buckets@.len(),
            final(self).buckets@.len() > 0,
            final(self).buckets@.last().at == now,
            forall|i: int|
                0 <= i < final(self).buckets@.len() - 1 ==> i < old(self).buckets@.len() && (
                #[trigger] final(self).buckets@[i]).at == old(self).buckets@[i].at,
    {
        let ghost before = self.buckets@;
        let row = Row { flow, counts: Window::one(kind), last: now };
        let n: usize = self.buckets.len();
        let newest: bool = n > 0 && self.buckets[n - 1].at == now;
        let ghost earlier = if newest {
            before.drop_last()
        } else {
            before
        };
        let mut rows: Vec<Row> = Vec::new();
        if newest {
            match self.buckets.pop() {
                Some(b) => {
                    assert(b == before.last());
                    assert(bucket_ok(before[n - 1]));
                    rows = b.rows;
                },
                None => {},
            }
        }
        assert(self.buckets@ =~= earlier);
        let ghost old_rows = rows@;
        proof {
            assert(newest ==> old_rows == before.last().rows@);
            assert(!newest ==> old_rows =~= Seq::<Row>::empty());
            assert forall|k: Kind| #[trigger]
                tally(old_rows, only(flow), k) + row.counts.count(k) <= u64::MAX by {
                if newest {
                    lemma_tally_grows(old_rows, only(flow), any_flow(), k);
                    lemma_newest_is_held(before, any_flow(), k, -1);
                    assert(held(before, any_flow(), k, -1) <= self.total.count(k));
                }
                assert(row.counts.count(k) == (if k == kind {
                    1nat
                } else {
                    0nat
                }));
            }
        }
        count_in(&mut rows, row);
        let bucket = Bucket { at: now, rows };
        self.buckets.push(bucket);
        proof {
            let after = self.buckets@;
            assert(after.drop_last() =~= earlier);
            assert(after.last() == bucket);
            assert forall|want: spec_fn(Flow) -> bool, k: Kind, c: int| #[trigger]
                self.seen(want, k, c) == old(self).seen(want, k, c) + (if want(flow) && k == kind
                    && now > c {
                    1nat
                } else {
                    0nat
                }) by {
                assert(tally(bucket.rows@, want, k) == tally(old_rows, want, k) + share(
                    row,
                    want,
                    k,
                ));
                assert(row.counts.count(k) == (if k == kind {
                    1nat
                } else {
                    0nat
                }));
            }
            assert forall|f: Flow, c: int| #[trigger]
                self.last_seen(f, c) == (if f == flow && now > c {
                    Some(now)
                } else {
                    old(self).last_seen(f, c)
                }) by {
                assert(has_row(bucket.rows@, f) <==> has_row(old_rows, f) || f == flow);
            }
            assert forall|i: int| 0 <= i < after.len() implies bucket_ok(#[trigger] after[i]) by {
                if i < earlier.len() {
                    assert(after[i] == before[i]);
                    assert(bucket_ok(before[i]));
                }
            }
            if old(self).in_order_until(now) {
                assert forall|i: int, j: int| 0 <= i < j < after.len() implies (
                #[trigger] after[i]).at < (#[trigger] after[j]).at by {
                    assert(after[i] == before[i]);
                    assert(before[i].at <= now);
                    if j < earlier.len() {
                        assert(after[j] == before[j]);
                    } else if newest {
                        assert(before[i].at < before[n - 1].at);
                    } else {
                        assert(before[n - 1].at != now);
                        assert(before[n - 1].at <= now);
                        if i < n - 1 {
                            assert(before[i].at < before[n - 1].at);
                        }
                    }
                }
                assert forall|i: int| 0 <= i < after.len() implies (#[trigger] after[i]).at
                    <= now by {
                    if i < earlier.len() {
                        assert(after[i] == before[i]);
                    }
                }
            }
        }
    }

    /// Records one packet, at a whole second.
    pub fn add(&mut self, kind: Kind, flow: Flow, now: u64)
        requires
            old(self).well_formed(),
            old(self).in_all().count(kind) < u64::MAX,
        ensures
            final(self).well_formed(),
            added(*old(self), *final(self), kind, flow, now),
            old(self).in_order_until(now) ==> final(self).in_order_until(now)
                && final(self).bucket_count() <= final(self).span(),
    {
        let cutoff: u64 = now.saturating_sub(self.window);
        self.drop_until(cutoff);
        let ghost mid = *self;
        self.record(kind, flow, now);
        let ghost recorded = *self;
        let one = Window::one(kind);
        proof {
            assert forall|k: Kind| #[trigger] self.total.count(k) + one.count(k) <= u64::MAX by {
                assert(one.count(k) == (if k == kind {
                    1nat
                } else {
                    0nat
                }));
            }
        }
        self.total = self.total.plus(one);
        proof {
            assert(old(self).total == mid.total);
            assert forall|k: Kind| #[trigger]
                self.total.count(k) == mid.total.count(k) + (if k == kind {
                    1nat
                } else {
                    0nat
                }) by {
                assert(one.count(k) == (if k == kind {
                    1nat
                } else {
                    0nat
                }));
            }
            assert forall|k: Kind| held(self.buckets@, any_flow(), k, -1)
                <= #[trigger] self.total.count(k) by {
                assert(recorded.seen(any_flow(), k, -1) == mid.seen(any_flow(), k, -1) + (if k
                    == kind {
                    1nat
                } else {
                    0nat
                }));
                assert(held(mid.buckets@, any_flow(), k, -1) <= mid.total.count(k));
            }
            assert forall|want: spec_fn(Flow) -> bool, k: Kind, c: int| #[trigger]
                self.seen(want, k, c) == old(self).seen(want, k, later(c, cutoff as int)) + (
                if want(flow) && k == kind && now > c {
                    1nat
                } else {
                    0nat
                }) by {
                assert(recorded.seen(want, k, c) == self.seen(want, k, c));
                assert(mid.seen(want, k, c) == old(self).seen(want, k, later(c, cutoff as int)));
            }
            assert forall|f: Flow, c: int| #[trigger]
                self.last_seen(f, c) == (if f == flow && now > c {
                    Some(now)
                } else {
                    old(self).last_seen(f, later(c, cutoff as int))
                }) by {
                assert(recorded.last_seen(f, c) == self.last_seen(f, c));
                assert(mid.last_seen(f, c) == old(self).last_seen(f, later(c, cutoff as int)));
            }
            if old(self).in_order_until(now) {
                let after = self.buckets@;
                if now > cutoff {
                    assert forall|i: int| 0 <= i < after.len() implies cutoff < (
                    #[trigger] after[i]).at <= now by {
                        if i < after.len() - 1 {
                            assert(after[i].at == mid.buckets@[i].at);
                            assert(mid.buckets@[i].at > cutoff);
                        }
                    }
                    lemma_seconds_between(after, cutoff as int, now as int);
                } else {
                    assert(mid.buckets@.len() == 0) by {
                        if mid.buckets@.len() > 0 {
                            assert(mid.buckets@[0].at > cutoff);
                            assert(mid.buckets@[0].at <= now);
                        }
                    }
                }
            }
        }
    }

    /// What the window holds, as of `now`.
    pub fn window(&mut self, now: u64) -> (r: Window)
        requires
            old(self).well_formed(),
        ensures
            final(self).well_formed(),
            expired(*old(self), *final(self), now),
            forall|t: u64| #[trigger]
                old(self).in_order_until(t) ==> final(self).in_order_until(t),
            forall|k: Kind| #[trigger]
                r.count(k) == old(self).seen(any_flow(), k, cutoff_at(old(self).span(), now)),
    {
        self.expire(now);
        let r = self.sum(None);
        proof {
            let cutoff = cutoff_at(old(self).span(), now);
            assert forall|k: Kind| #[trigger] r.count(k) == old(self).seen(any_flow(), k, cutoff) by {
                assert(self.seen(any_flow(), k, -1) == old(self).seen(
                    any_flow(),
                    k,
                    later(-1, cutoff),
                ));
            }
        }
        r
    }

    /// What the window holds of one relay interface, as of `now`: the packets
    /// on every flow that went through it.
    pub fn relayed(&mut self, gi: Ipv4Addr, now: u64) -> (r: Window)
        requires
            old(self).well_formed(),
        ensures
            final(self).well_formed(),
            expired(*old(self), *final(self), now),
            forall|t: u64| #[trigger]
                old(self).in_order_until(t) ==> final(self).in_order_until(t),
            forall|k: Kind| #[trigger]
                r.count(k) == old(self).seen(through(gi), k, cutoff_at(old(self).span(), now)),
    {
        self.expire(now);
        let r = self.sum(Some(gi));
        proof {
            let cutoff = cutoff_at(old(self).span(), now);
            assert forall|k: Kind| #[trigger] r.count(k) == old(self).seen(through(gi), k, cutoff) by {
                assert(self.seen(through(gi), k, -1) == old(self).seen(
                    through(gi),
                    k,
                    later(-1, cutoff),
                ));
            }
        }
        r
    }

    /// Everything held, or everything held of one relay interface.
    fn sum(&self, gi: Option<Ipv4Addr>) -> (r: Window)
        requires
            self.well_formed(),
        ensures
            forall|k: Kind| #[trigger]
                r.count(k) == self.seen(
                    match gi {
                        None => any_flow(),
                        Some(g) => through(g),
                    },
                    k,
                    -1,
                ),
    {
        let ghost want = match gi {
            None => any_flow(),
            Some(g) => through(g),
        };
        let mut r = Window { requests: 0, replies: 0, tftp_reads: 0, tftp_sends: 0 };
        let mut i: usize = 0;
        while i < self.buckets.len()
            invariant
                self.well_formed(),
                i <= self.buckets@.len(),
                want == (match gi {
                    None => any_flow(),
                    Some(g) => through(g),
                }),
                forall|k: Kind| #[trigger]
                    r.count(k) == held(self.buckets@.take(i as int), want, k, -1),
            decreases self.buckets@.len() - i,
        {
            let ghost upto = self.buckets@.take(i as int);
            let ghost next = self.buckets@.take(i + 1);
            let rows = &self.buckets[i].rows;
            let ghost bucket = self.buckets@[i as int];
            proof {
                assert(next.drop_last() =~= upto);
                assert(next.last() == bucket);
            }
            let ghost so_far = r;
            let mut j: usize = 0;
            while j < rows.len()
                invariant
                    self.well_formed(),
                    i < self.buckets@.len(),
                    j <= rows@.len(),
                    bucket == self.buckets@[i as int],
                    rows@ == bucket.rows@,
                    next == self.buckets@.take(i + 1),
                    upto == self.buckets@.take(i as int),
                    next.drop_last() == upto,
                    next.last() == bucket,
                    want == (match gi {
                        None => any_flow(),
                        Some(g) => through(g),
                    }),
                    forall|k: Kind| #[trigger] so_far.count(k) == held(upto, want, k, -1),
                    forall|k: Kind| #[trigger]
                        r.count(k) == so_far.count(k) + tally(rows@.take(j as int), want, k),
                decreases rows@.len() - j,
            {
                let row = rows[j];
                let wanted: bool = match gi {
                    None => true,
                    Some(g) => match row.flow.gi {
                        Some(there) => there == g,
                        None => false,
                    },
                };
                let ghost done = rows@.take(j as int);
                let ghost more = rows@.take(j + 1);
                proof {
                    assert(more.drop_last() =~= done);
                    assert(more.last() == row);
                    assert(wanted == want(row.flow));
                    assert forall|k: Kind| #[trigger]
                        so_far.count(k) + tally(more, want, k) <= u64::MAX by {
                        lemma_tally_prefix(rows@, j + 1, want, k);
                        lemma_held_prefix(self.buckets@, i + 1, want, k, -1);
                        lemma_held_shrinks(self.buckets@, want, any_flow(), k, -1, -1);
                        assert(held(next, want, k, -1) == so_far.count(k) + tally(rows@, want, k));
                        assert(held(self.buckets@, any_flow(), k, -1) <= self.total.count(k));
                    }
                }
                if wanted {
                    proof {
                        assert forall|k: Kind| #[trigger] r.count(k) + row.counts.count(k)
                            <= u64::MAX by {
                            assert(so_far.count(k) + tally(more, want, k) <= u64::MAX);
                        }
                    }
                    r = r.plus(row.counts);
                }
                j = j + 1;
            }
            assert(rows@.take(rows@.len() as int) =~= rows@);
            assert forall|k: Kind| #[trigger] r.count(k) == held(next, want, k, -1) by {
                assert(so_far.count(k) == held(upto, want, k, -1));
            }
            i = i + 1;
        }
        assert(self.buckets@.take(self.buckets@.len() as int) =~= self.buckets@);
        r
    }

    /// Everything seen since the program started.
    pub fn total(&self) -> (r: Window)
        ensures
            r == self.in_all(),
    {
        self.total
    }

    /// Whether one more packet of a kind can be counted.
    pub fn has_room(&self, kind: Kind) -> (r: bool)
        ensures
            r == (self.in_all().count(kind) < u64::MAX),
    {
        match kind {
            Kind::ClientRequest => self.total.requests < u64::MAX,
            Kind::ServerReply => self.total.replies < u64::MAX,
            Kind::TftpRequest => self.total.tftp_reads < u64::MAX,
            Kind::TftpReply => self.total.tftp_sends < u64::MAX,
        }
    }

    /// How many one-second buckets are kept.
    pub fn buckets(&self) -> (r: usize)
        ensures
            r == self.bucket_count(),
    {
        self.buckets.len()
    }
}

/// Fewer rows never tally more.
proof fn lemma_tally_prefix(rows: Seq<Row>, n: int, want: spec_fn(Flow) -> bool, k: Kind)
    requires
        0 <= n <= rows.len(),
    ensures
        tally(rows.take(n), want, k) <= tally(rows, want, k),
    decreases rows.len(),
{
    if n == rows.len() {
        assert(rows.take(n) =~= rows);
    } else {
        assert(rows.take(n) =~= rows.drop_last().take(n));
        lemma_tally_prefix(rows.drop_last(), n, want, k);
    }
}

/// Fewer buckets never hold more.
proof fn lemma_held_prefix(
    buckets: Seq<Bucket>,
    n: int,
    want: spec_fn(Flow) -> bool,
    k: Kind,
    c: int,
)
    requires
        0 <= n <= buckets.len(),
    ensures
        held(buckets.take(n), want, k, c) <= held(buckets, want, k, c),
    decreases buckets.len(),
{
    if n == buckets.len() {
        assert(buckets.take(n) =~= buckets);
    } else {
        assert(buckets.take(n) =~= buckets.drop_last().take(n));
        lemma_held_prefix(buckets.drop_last(), n, want, k, c);
    }
}

// Flows, busiest first.

/// Whether one flow is listed before another: the busier one first, and of
/// two as busy as each other the one that sorts first.
pub open spec fn busier(a: (Flow, Dest), b: (Flow, Dest)) -> bool {
    a.1.packets() > b.1.packets() || a.1.packets() == b.1.packets() && a.0.rank() < b.0.rank()
}

/// Whether a list names exactly the flows that `c` remembers from after second
/// `cutoff`, each with its counts and the moment it was last seen, busiest
/// first.
pub open spec fn lists_flows(out: Seq<(Flow, Dest)>, c: Counters, cutoff: int) -> bool {
    &&& forall|i: int, j: int|
        0 <= i < j < out.len() ==> busier(#[trigger] out[i], #[trigger] out[j])
    &&& forall|i: int|
        0 <= i < out.len() ==> c.last_seen((#[trigger] out[i]).0, cutoff) == Some(out[i].1.last)
    &&& forall|i: int, k: Kind|
        0 <= i < out.len() ==> (#[trigger] out[i]).1.counts@[#[trigger] slot_of(k)] == c.seen(
            only(out[i].0),
            k,
            cutoff,
        )
    &&& forall|f: Flow| #[trigger]
        c.last_seen(f, cutoff) is Some ==> exists|i: int|
            0 <= i < out.len() && (#[trigger] out[i]).0 == f
}

/// Whether an entry of the list says what a row says.
spec fn says(x: (Flow, Dest), row: Row) -> bool {
    &&& x.0 == row.flow
    &&& x.1.last == row.last
    &&& forall|k: Kind| x.1.counts@[#[trigger] slot_of(k)] == row.counts.count(k)
}

/// Whether one of the entries says what a row says.
spec fn is_listed(out: Seq<(Flow, Dest)>, row: Row) -> bool {
    exists|i: int| 0 <= i < out.len() && says(#[trigger] out[i], row)
}

/// Whether one of the rows says what an entry says.
spec fn is_backed(x: (Flow, Dest), rows: Seq<Row>) -> bool {
    exists|i: int| 0 <= i < rows.len() && says(x, #[trigger] rows[i])
}

fn entry_of(row: &Row) -> (r: (Flow, Dest))
    ensures
        says(r, *row),
{
    let counts = [
        row.counts.requests,
        row.counts.replies,
        row.counts.tftp_reads,
        row.counts.tftp_sends,
    ];
    let r = (row.flow, Dest { counts, last: row.last });
    assert forall|k: Kind| r.1.counts@[#[trigger] slot_of(k)] == row.counts.count(k) by {
        match k {
            Kind::ClientRequest => {},
            Kind::ServerReply => {},
            Kind::TftpRequest => {},
            Kind::TftpReply => {},
        }
    }
    r
}

/// Puts an entry where it belongs among entries of other flows.
fn list_in(out: &mut Vec<(Flow, Dest)>, x: (Flow, Dest))
    requires
        forall|i: int| 0 <= i < old(out)@.len() ==> (#[trigger] old(out)@[i]).0 != x.0,
        forall|i: int, j: int|
            0 <= i < j < old(out)@.len() ==> busier(
                #[trigger] old(out)@[i],
                #[trigger] old(out)@[j],
            ),
    ensures
        forall|i: int, j: int|
            0 <= i < j < final(out)@.len() ==> busier(
                #[trigger] final(out)@[i],
                #[trigger] final(out)@[j],
            ),
        exists|at: int| 0 <= at <= old(out)@.len() && final(out)@ == old(out)@.insert(at, x),
{
    let ghost before = out@;
    let size: u128 = x.1.packets_wide();
    let mut low: usize = 0;
    let mut high: usize = out.len();
    while low < high
        invariant
            out@ == before,
            low <= high <= before.len(),
            size == x.1.packets(),
            forall|i: int| 0 <= i < before.len() ==> (#[trigger] before[i]).0 != x.0,
            forall|i: int, j: int|
                0 <= i < j < before.len() ==> busier(#[trigger] before[i], #[trigger] before[j]),
            forall|i: int| 0 <= i < low ==> busier(#[trigger] before[i], x),
            forall|i: int| high <= i < before.len() ==> busier(x, #[trigger] before[i]),
        decreases high - low,
    {
        let mid: usize = low + (high - low) / 2;
        let there = out[mid];
        let other: u128 = there.1.packets_wide();
        if other > size || (other == size && there.0.before(&x.0)) {
            assert forall|i: int| 0 <= i < mid + 1 implies busier(#[trigger] before[i], x) by {
                if i < mid {
                    assert(busier(before[i], before[mid as int]));
                }
            }
            low = mid + 1;
        } else {
            proof {
                law_flows_are_told_apart(there.0, x.0);
                assert forall|i: int| mid <= i < before.len() implies busier(
                    x,
                    #[trigger] before[i],
                ) by {
                    if i > mid {
                        assert(busier(before[mid as int], before[i]));
                    }
                }
            }
            high = mid;
        }
    }
    out.insert(low, x);
    proof {
        let after = out@;
        assert(after =~= before.insert(low as int, x));
        assert forall|i: int, j: int| 0 <= i < j < after.len() implies busier(
            #[trigger] after[i],
            #[trigger] after[j],
        ) by {
            if j < low {
                assert(busier(before[i], before[j]));
            } else if i < low && j == low {
                assert(busier(before[i], x));
            } else if i < low {
                assert(busier(before[i], before[j - 1]));
            } else if i == low {
                assert(busier(x, before[j - 1]));
            } else {
                assert(busier(before[i - 1], before[j - 1]));
            }
        }
    }
}

impl Counters {
    /// One row for each flow that is remembered, over all buckets.
    fn gathered(&self) -> (acc: Vec<Row>)
        requires
            self.well_formed(),
        ensures
            in_rank_order(acc@),
            forall|want: spec_fn(Flow) -> bool, k: Kind| #[trigger]
                tally(acc@, want, k) == self.seen(want, k, -1),
            forall|f: Flow| #[trigger] has_row(acc@, f) <==> self.last_seen(f, -1) is Some,
            forall|i: int|
                0 <= i < acc@.len() ==> self.last_seen((#[trigger] acc@[i]).flow, -1) == Some(
                    acc@[i].last,
                ),
    {
        let mut acc: Vec<Row> = Vec::new();
        let mut i: usize = 0;
        while i < self.buckets.len()
            invariant
                self.well_formed(),
                i <= self.buckets@.len(),
                in_rank_order(acc@),
                forall|want: spec_fn(Flow) -> bool, k: Kind| #[trigger]
                    tally(acc@, want, k) == held(self.buckets@.take(i as int), want, k, -1),
                forall|f: Flow| #[trigger]
                    has_row(acc@, f) <==> last_held(self.buckets@.take(i as int), f, -1) is Some,
                forall|m: int|
                    0 <= m < acc@.len() ==> last_held(
                        self.buckets@.take(i as int),
                        (#[trigger] acc@[m]).flow,
                        -1,
                    ) == Some(acc@[m].last),
            decreases self.buckets@.len() - i,
        {
            let ghost upto = self.buckets@.take(i as int);
            let ghost next = self.buckets@.take(i + 1);
            let ghost bucket = self.buckets@[i as int];
            proof {
                assert(next.drop_last() =~= upto);
                assert(next.last() == bucket);
            }
            let at: u64 = self.buckets[i].at;
            let rows = &self.buckets[i].rows;
            let mut j: usize = 0;
            while j < rows.len()
                invariant
                    self.well_formed(),
                    i < self.buckets@.len(),
                    j <= rows@.len(),
                    bucket == self.buckets@[i as int],
                    at == bucket.at,
                    rows@ == bucket.rows@,
                    next == self.buckets@.take(i + 1),
                    next.drop_last() == upto,
                    next.last() == bucket,
                    in_rank_order(acc@),
                    forall|want: spec_fn(Flow) -> bool, k: Kind| #[trigger]
                        tally(acc@, want, k) == held(upto, want, k, -1) + tally(
                            rows@.take(j as int),
                            want,
                            k,
                        ),
                    forall|f: Flow| #[trigger]
                        has_row(acc@, f) <==> last_held(upto, f, -1) is Some || has_row(
                            rows@.take(j as int),
                            f,
                        ),
                    forall|m: int|
                        0 <= m < acc@.len() ==> Some((#[trigger] acc@[m]).last) == (if has_row(
                            rows@.take(j as int),
                            acc@[m].flow,
                        ) {
                            Some(at)
                        } else {
                            last_held(upto, acc@[m].flow, -1)
                        }),
                decreases rows@.len() - j,
            {
                let there = rows[j];
                let row = Row { flow: there.flow, counts: there.counts, last: at };
                let ghost done = rows@.take(j as int);
                let ghost more = rows@.take(j + 1);
                let ghost so_far = acc@;
                proof {
                    assert(more.drop_last() =~= done);
                    assert(more.last() == there);
                    assert forall|k: Kind| #[trigger]
                        tally(so_far, only(row.flow), k) + row.counts.count(k) <= u64::MAX by {
                        let want = only(row.flow);
                        lemma_tally_prefix(rows@, j + 1, want, k);
                        lemma_held_prefix(self.buckets@, i + 1, want, k, -1);
                        lemma_held_shrinks(self.buckets@, want, any_flow(), k, -1, -1);
                        assert(held(self.buckets@, any_flow(), k, -1) <= self.total.count(k));
                    }
                }
                count_in(&mut acc, row);
                proof {
                    assert forall|f: Flow| #[trigger]
                        has_row(more, f) <==> has_row(done, f) || f == row.flow by {
                        if has_row(more, f) {
                            let m = choose|m: int|
                                0 <= m < more.len() && (#[trigger] more[m]).flow == f;
                            if m < j {
                                assert(done[m].flow == f);
                            }
                        }
                        if has_row(done, f) {
                            let m = choose|m: int|
                                0 <= m < done.len() && (#[trigger] done[m]).flow == f;
                            assert(more[m].flow == f);
                        }
                        assert(more[j as int].flow == row.flow);
                    }
                    assert forall|want: spec_fn(Flow) -> bool, k: Kind| #[trigger]
                        tally(acc@, want, k) == held(upto, want, k, -1) + tally(more, want, k) by {
                        assert(tally(so_far, want, k) == held(upto, want, k, -1) + tally(
                            done,
                            want,
                            k,
                        ));
                    }
                    assert forall|m: int| 0 <= m < acc@.len() implies Some(
                        (#[trigger] acc@[m]).last,
                    ) == (if has_row(more, acc@[m].flow) {
                        Some(at)
                    } else {
                        last_held(upto, acc@[m].flow, -1)
                    }) by {
                        if acc@[m].flow != row.flow {
                            assert(so_far.contains(acc@[m]));
                            let was = choose|was: int|
                                0 <= was < so_far.len() && so_far[was] == acc@[m];
                            assert(so_far[was].last == acc@[m].last);
                        }
                    }
                }
                j = j + 1;
            }
            proof {
                assert(rows@.take(rows@.len() as int) =~= rows@);
                assert forall|f: Flow| #[trigger]
                    has_row(acc@, f) <==> last_held(next, f, -1) is Some by {
                    assert(has_row(acc@, f) <==> last_held(upto, f, -1) is Some || has_row(
                        rows@,
                        f,
                    ));
                }
            }
            i = i + 1;
        }
        assert(self.buckets@.take(self.buckets@.len() as int) =~= self.buckets@);
        acc
    }

    /// The flows in the window, busiest first, with what each one carried
    /// within the window.
    pub fn by_flow(&mut self, now: u64) -> (out: Vec<(Flow, Dest)>)
        requires
            old(self).well_formed(),
        ensures
            final(self).well_formed(),
            expired(*old(self), *final(self), now),
            forall|t: u64| #[trigger]
                old(self).in_order_until(t) ==> final(self).in_order_until(t),
            lists_flows(out@, *old(self), cutoff_at(old(self).span(), now)),
    {
        self.expire(now);
        let rows = self.gathered();
        let mut out: Vec<(Flow, Dest)> = Vec::new();
        let mut i: usize = 0;
        while i < rows.len()
            invariant
                self.well_formed(),
                i <= rows@.len(),
                in_rank_order(rows@),
                forall|want: spec_fn(Flow) -> bool, k: Kind| #[trigger]
                    tally(rows@, want, k) == self.seen(want, k, -1),
                forall|m: int, n: int|
                    0 <= m < n < out@.len() ==> busier(#[trigger] out@[m], #[trigger] out@[n]),
                forall|m: int|
                    0 <= m < out@.len() ==> is_backed(#[trigger] out@[m], rows@.take(i as int)),
                forall|m: int| 0 <= m < i ==> is_listed(out@, #[trigger] rows@[m]),
            decreases rows@.len() - i,
        {
            let x = entry_of(&rows[i]);
            let ghost row = rows@[i as int];
            let ghost so_far = out@;
            proof {
                assert forall|m: int| 0 <= m < so_far.len() implies (#[trigger] so_far[m]).0
                    != x.0 by {
                    assert(is_backed(so_far[m], rows@.take(i as int)));
                    let n = choose|n: int|
                        0 <= n < i && says(so_far[m], #[trigger] rows@.take(i as int)[n]);
                    assert(rows@[n].flow.rank() < rows@[i as int].flow.rank());
                }
            }
            list_in(&mut out, x);
            proof {
                let at = choose|at: int|
                    0 <= at <= so_far.len() && out@ == so_far.insert(at, x);
                let done = rows@.take(i as int);
                let more = rows@.take(i + 1);
                assert forall|m: int| 0 <= m < out@.len() implies is_backed(
                    #[trigger] out@[m],
                    more,
                ) by {
                    if m == at {
                        assert(more[i as int] == row);
                    } else {
                        let was = if m < at {
                            m
                        } else {
                            m - 1
                        };
                        assert(out@[m] == so_far[was]);
                        assert(is_backed(so_far[was], done));
                        let n = choose|n: int| 0 <= n < i && says(so_far[was], #[trigger] done[n]);
                        assert(more[n] == done[n]);
                    }
                }
                assert forall|m: int| 0 <= m < i + 1 implies is_listed(
                    out@,
                    #[trigger] rows@[m],
                ) by {
                    if m == i {
                        assert(out@[at] == x);
                    } else {
                        assert(is_listed(so_far, rows@[m]));
                        let n = choose|n: int|
                            0 <= n < so_far.len() && says(#[trigger] so_far[n], rows@[m]);
                        let new_n = if n < at {
                            n
                        } else {
                            n + 1
                        };
                        assert(out@[new_n] == so_far[n]);
                    }
                }
            }
            i = i + 1;
        }
        proof {
            let cutoff = cutoff_at(old(self).span(), now);
            assert(rows@.take(rows@.len() as int) =~= rows@);
            assert forall|f: Flow| #[trigger] self.last_seen(f, -1) == old(self).last_seen(
                f,
                cutoff,
            ) by {
                assert(later(-1, cutoff) == cutoff);
            }
            assert forall|m: int| 0 <= m < out@.len() implies old(self).last_seen(
                (#[trigger] out@[m]).0,
                cutoff,
            ) == Some(out@[m].1.last) by {
                assert(is_backed(out@[m], rows@));
                let n = choose|n: int| 0 <= n < rows@.len() && says(out@[m], #[trigger] rows@[n]);
                assert(self.last_seen(rows@[n].flow, -1) == Some(rows@[n].last));
            }
            assert forall|m: int, k: Kind| 0 <= m < out@.len() implies (
            #[trigger] out@[m]).1.counts@[#[trigger] slot_of(k)] == old(self).seen(
                only(out@[m].0),
                k,
                cutoff,
            ) by {
                assert(is_backed(out@[m], rows@));
                let n = choose|n: int| 0 <= n < rows@.len() && says(out@[m], #[trigger] rows@[n]);
                lemma_tally_only(rows@, rows@[n].flow, k);
                assert(tally(rows@, only(rows@[n].flow), k) == rows@[n].counts.count(k));
                assert(self.seen(only(out@[m].0), k, -1) == old(self).seen(
                    only(out@[m].0),
                    k,
                    later(-1, cutoff),
                ));
            }
            assert forall|f: Flow| #[trigger]
                old(self).last_seen(f, cutoff) is Some implies exists|m: int|
                0 <= m < out@.len() && (#[trigger] out@[m]).0 == f by {
                assert(self.last_seen(f, -1) == old(self).last_seen(f, cutoff));
                assert(has_row(rows@, f));
                let n = choose|n: int| 0 <= n < rows@.len() && (#[trigger] rows@[n]).flow == f;
                assert(is_listed(out@, rows@[n]));
            }
        }
        out
    }
}

// What holds of every run.

/// Something that was done with the counters: a packet was recorded, or a
/// moment was looked at, which forgets what the window leaves out by then.
pub ghost enum Event {
    Packet { kind: Kind, flow: Flow, at: u64 },
    Look { at: u64 },
}

impl Event {
    /// When it was done.
    pub open spec fn moment(self) -> u64 {
        match self {
            Event::Packet { at, .. } => at,
            Event::Look { at } => at,
        }
    }
}

/// Whether an event took the counters from one state to another. `expire`,
/// `window`, `relayed` and `by_flow` are all looks at a moment.
pub open spec fn happened(before: Counters, after: Counters, e: Event) -> bool {
    match e {
        Event::Packet { kind, flow, at } => added(before, after, kind, flow, at),
        Event::Look { at } => expired(before, after, at),
    }
}

/// How many packets of a run are of one kind, on a wanted flow, and from after
/// second `c`.
pub open spec fn arrived(
    events: Seq<Event>,
    want: spec_fn(Flow) -> bool,
    k: Kind,
    c: int,
) -> nat
    decreases events.len(),
{
    if events.len() == 0 {
        0
    } else {
        arrived(events.drop_last(), want, k, c) + (match events.last() {
            Event::Packet { kind, flow, at } if want(flow) && kind == k && at > c => 1nat,
            _ => 0nat,
        })
    }
}

/// When the last packet of a run came on a flow, if one came after second `c`.
pub open spec fn last_arrival(events: Seq<Event>, f: Flow, c: int) -> Option<u64>
    decreases events.len(),
{
    if events.len() == 0 {
        None
    } else {
        match events.last() {
            Event::Packet { flow, at, .. } if flow == f && at > c => Some(at),
            _ => last_arrival(events.drop_last(), f, c),
        }
    }
}

/// Whether the counters went through `states` in a run of events, from
/// nothing, by a clock that never stepped back.
pub open spec fn recorded(states: Seq<Counters>, events: Seq<Event>) -> bool {
    &&& states.len() == events.len() + 1
    &&& forall|want: spec_fn(Flow) -> bool, k: Kind, c: int| #[trigger]
        states[0].seen(want, k, c) == 0
    &&& forall|f: Flow, c: int| #[trigger] states[0].last_seen(f, c) is None
    &&& forall|k: Kind| #[trigger] states[0].in_all().count(k) == 0
    &&& forall|i: int|
        0 <= i < events.len() ==> happened(states[i], states[i + 1], #[trigger] events[i])
    &&& forall|i: int, j: int|
        0 <= i <= j < events.len() ==> (#[trigger] events[i]).moment() <= (
        #[trigger] events[j]).moment()
}

/// The counters remember exactly what arrived within the window, however often
/// they are looked at in between: asked from any second that the window does
/// not leave out, they say how many packets arrived since, and when the last
/// one on a flow did. The totals count everything that ever arrived.
pub proof fn law_window_holds_what_arrived(
    states: Seq<Counters>,
    events: Seq<Event>,
    want: spec_fn(Flow) -> bool,
    k: Kind,
    f: Flow,
    c: int,
)
    requires
        recorded(states, events),
        events.len() > 0 ==> c >= cutoff_at(states[0].span(), events.last().moment()),
    ensures
        states.last().seen(want, k, c) == arrived(events, want, k, c),
        states.last().last_seen(f, c) == last_arrival(events, f, c),
        states.last().in_all().count(k) == arrived(events, any_flow(), k, -1),
        states.last().span() == states[0].span(),
    decreases events.len(),
{
    if events.len() > 0 {
        let n = events.len() - 1;
        let before = states.drop_last();
        let earlier = events.drop_last();
        let e = events[n];
        assert(happened(states[n], states[n + 1], e));
        assert(before[0] == states[0]);
        assert forall|i: int| 0 <= i < earlier.len() implies happened(
            before[i],
            before[i + 1],
            #[trigger] earlier[i],
        ) by {
            assert(earlier[i] == events[i]);
        }
        assert forall|i: int, j: int| 0 <= i <= j < earlier.len() implies (
        #[trigger] earlier[i]).moment() <= (#[trigger] earlier[j]).moment() by {
            assert(events[i].moment() <= events[j].moment());
        }
        if earlier.len() > 0 {
            assert(earlier.last() == events[n - 1]);
            assert(events[n - 1].moment() <= events[n].moment());
        }
        law_window_holds_what_arrived(before, earlier, want, k, f, c);
        assert(before.last() == states[n]);
        assert(states.last() == states[n + 1]);
        let cutoff = cutoff_at(states[n].span(), e.moment());
        assert(later(c, cutoff) == c);
        match e {
            Event::Packet { kind, flow, at } => {
                assert(states[n + 1].seen(want, k, c) == states[n].seen(want, k, later(c, cutoff))
                    + (if want(flow) && k == kind && at > c {
                    1nat
                } else {
                    0nat
                }));
                assert(states[n + 1].in_all().count(k) == states[n].in_all().count(k) + (if k
                    == kind {
                    1nat
                } else {
                    0nat
                }));
            },
            Event::Look { at } => {
                assert(states[n + 1].seen(want, k, c) == states[n].seen(want, k, later(c, cutoff)));
            },
        }
    }
}

/// The total does not forget: a packet adds one to the count of its kind and
/// to no other, and a look at any moment changes nothing.
pub proof fn law_only_a_packet_changes_the_total(before: Counters, after: Counters, e: Event)
    requires
        happened(before, after, e),
    ensures
        match e {
            Event::Packet { kind, .. } => forall|k: Kind| #[trigger]
                after.in_all().count(k) == before.in_all().count(k) + (if k == kind {
                    1nat
                } else {
                    0nat
                }),
            Event::Look { .. } => after.in_all() == before.in_all(),
        },
{
}

/// Nothing that arrived up to second `c` counts from after it.
proof fn lemma_arrived_none(events: Seq<Event>, want: spec_fn(Flow) -> bool, k: Kind, c: int)
    requires
        forall|i: int|
            0 <= i < events.len() && (#[trigger] events[i]) is Packet ==> events[i].moment() <= c,
    ensures
        arrived(events, want, k, c) == 0,
    decreases events.len(),
{
    if events.len() > 0 {
        let earlier = events.drop_last();
        assert forall|i: int|
            0 <= i < earlier.len() && (#[trigger] earlier[i]) is Packet implies earlier[i].moment()
            <= c by {
            assert(earlier[i] == events[i]);
        }
        lemma_arrived_none(earlier, want, k, c);
        assert(events[events.len() - 1] == events.last());
    }
}

/// Silence empties the window without a single packet: once the window is as
/// long as the silence, nothing is left in it, on any flow.
pub proof fn law_silence_empties_the_window(
    states: Seq<Counters>,
    events: Seq<Event>,
    want: spec_fn(Flow) -> bool,
    k: Kind,
    now: u64,
)
    requires
        recorded(states, events),
        events.len() > 0 ==> events.last().moment() <= now,
        forall|i: int|
            0 <= i < events.len() && (#[trigger] events[i]) is Packet ==> events[i].moment()
                + states[0].span() <= now,
    ensures
        states.last().seen(want, k, cutoff_at(states.last().span(), now)) == 0,
{
    let c = cutoff_at(states[0].span(), now);
    law_window_holds_what_arrived(states, events, want, k, arbitrary(), c);
    assert forall|i: int|
        0 <= i < events.len() && (#[trigger] events[i]) is Packet implies events[i].moment()
        <= c by {}
    lemma_arrived_none(events, want, k, c);
}

/// Wanting what either of two wants.
spec fn either(a: spec_fn(Flow) -> bool, b: spec_fn(Flow) -> bool) -> spec_fn(Flow) -> bool {
    |f: Flow| a(f) || b(f)
}

/// Wanting what a list names.
spec fn among(out: Seq<(Flow, Dest)>) -> spec_fn(Flow) -> bool {
    |f: Flow| exists|i: int| 0 <= i < out.len() && (#[trigger] out[i]).0 == f
}

proof fn lemma_tally_apart(
    rows: Seq<Row>,
    a: spec_fn(Flow) -> bool,
    b: spec_fn(Flow) -> bool,
    k: Kind,
)
    requires
        forall|f: Flow| !(#[trigger] a(f) && b(f)),
    ensures
        tally(rows, either(a, b), k) == tally(rows, a, k) + tally(rows, b, k),
    decreases rows.len(),
{
    if rows.len() > 0 {
        lemma_tally_apart(rows.drop_last(), a, b, k);
        assert(!(a(rows.last().flow) && b(rows.last().flow)));
    }
}

proof fn lemma_held_apart(
    buckets: Seq<Bucket>,
    a: spec_fn(Flow) -> bool,
    b: spec_fn(Flow) -> bool,
    k: Kind,
    c: int,
)
    requires
        forall|f: Flow| !(#[trigger] a(f) && b(f)),
    ensures
        held(buckets, either(a, b), k, c) == held(buckets, a, k, c) + held(buckets, b, k, c),
    decreases buckets.len(),
{
    if buckets.len() > 0 {
        lemma_held_apart(buckets.drop_last(), a, b, k, c);
        lemma_tally_apart(buckets.last().rows@, a, b, k);
    }
}

/// Wanting every flow that has a row is wanting every flow.
proof fn lemma_tally_covered(rows: Seq<Row>, want: spec_fn(Flow) -> bool, k: Kind)
    requires
        forall|f: Flow| #[trigger] has_row(rows, f) ==> want(f),
    ensures
        tally(rows, want, k) == tally(rows, any_flow(), k),
    decreases rows.len(),
{
    if rows.len() > 0 {
        let less = rows.drop_last();
        assert forall|f: Flow| #[trigger] has_row(less, f) implies want(f) by {
            let i = choose|i: int| 0 <= i < less.len() && (#[trigger] less[i]).flow == f;
            assert(rows[i].flow == f);
            assert(has_row(rows, f));
        }
        lemma_tally_covered(less, want, k);
        assert(rows[rows.len() - 1].flow == rows.last().flow);
        assert(has_row(rows, rows.last().flow));
    }
}

proof fn lemma_held_covered(
    buckets: Seq<Bucket>,
    want: spec_fn(Flow) -> bool,
    k: Kind,
    c: int,
)
    requires
        forall|f: Flow| #[trigger] last_held(buckets, f, c) is Some ==> want(f),
    ensures
        held(buckets, want, k, c) == held(buckets, any_flow(), k, c),
    decreases buckets.len(),
{
    if buckets.len() > 0 {
        let less = buckets.drop_last();
        let last = buckets.last();
        assert forall|f: Flow| #[trigger] last_held(less, f, c) is Some implies want(f) by {
            assert(last_held(buckets, f, c) is Some);
        }
        lemma_held_covered(less, want, k, c);
        if last.at > c {
            assert forall|f: Flow| #[trigger] has_row(last.rows@, f) implies want(f) by {
                assert(last_held(buckets, f, c) is Some);
            }
            lemma_tally_covered(last.rows@, want, k);
        }
    }
}

/// The packets of one kind over a whole list of flows.
pub open spec fn listed_total(out: Seq<(Flow, Dest)>, k: Kind) -> nat
    decreases out.len(),
{
    if out.len() == 0 {
        0
    } else {
        listed_total(out.drop_last(), k) + out.last().1.counts@[slot_of(k)] as nat
    }
}

proof fn lemma_listed_total(out: Seq<(Flow, Dest)>, c: Counters, k: Kind, cutoff: int)
    requires
        forall|i: int, j: int| 0 <= i < j < out.len() ==> (#[trigger] out[i]).0 != (
        #[trigger] out[j]).0,
        forall|i: int|
            0 <= i < out.len() ==> (#[trigger] out[i]).1.counts@[slot_of(k)] == c.seen(
                only(out[i].0),
                k,
                cutoff,
            ),
    ensures
        listed_total(out, k) == c.seen(among(out), k, cutoff),
    decreases out.len(),
{
    if out.len() == 0 {
        lemma_held_none(c.buckets@, among(out), k, cutoff);
    } else {
        let less = out.drop_last();
        let last = out[out.len() - 1];
        assert forall|i: int, j: int| 0 <= i < j < less.len() implies (#[trigger] less[i]).0 != (
        #[trigger] less[j]).0 by {
            assert(out[i].0 != out[j].0);
        }
        assert forall|i: int| 0 <= i < less.len() implies (
        #[trigger] less[i]).1.counts@[slot_of(k)] == c.seen(only(less[i].0), k, cutoff) by {
            assert(less[i] == out[i]);
        }
        lemma_listed_total(less, c, k, cutoff);
        let a = among(less);
        let b = only(last.0);
        assert forall|f: Flow| !(#[trigger] a(f) && b(f)) by {
            if a(f) && b(f) {
                let i = choose|i: int| 0 <= i < less.len() && (#[trigger] less[i]).0 == f;
                assert(out[i].0 != out[out.len() - 1].0);
            }
        }
        lemma_held_apart(c.buckets@, a, b, k, cutoff);
        assert forall|f: Flow| #[trigger] either(a, b)(f) implies among(out)(f) by {
            if a(f) {
                let i = choose|i: int| 0 <= i < less.len() && (#[trigger] less[i]).0 == f;
                assert(out[i].0 == f);
            } else {
                assert(out[out.len() - 1].0 == f);
            }
        }
        assert forall|f: Flow| #[trigger] among(out)(f) implies either(a, b)(f) by {
            let i = choose|i: int| 0 <= i < out.len() && (#[trigger] out[i]).0 == f;
            if i < less.len() {
                assert(less[i].0 == f);
            }
        }
        lemma_held_shrinks(c.buckets@, either(a, b), among(out), k, cutoff, cutoff);
        lemma_held_shrinks(c.buckets@, among(out), either(a, b), k, cutoff, cutoff);
    }
}

/// Wanting nothing holds nothing.
proof fn lemma_held_none(buckets: Seq<Bucket>, want: spec_fn(Flow) -> bool, k: Kind, c: int)
    requires
        forall|f: Flow| !#[trigger] want(f),
    ensures
        held(buckets, want, k, c) == 0,
    decreases buckets.len(),
{
    if buckets.len() > 0 {
        lemma_held_none(buckets.drop_last(), want, k, c);
        lemma_tally_none(buckets.last().rows@, want, k);
    }
}

proof fn lemma_tally_none(rows: Seq<Row>, want: spec_fn(Flow) -> bool, k: Kind)
    requires
        forall|f: Flow| !#[trigger] want(f),
    ensures
        tally(rows, want, k) == 0,
    decreases rows.len(),
{
    if rows.len() > 0 {
        lemma_tally_none(rows.drop_last(), want, k);
        assert(!want(rows.last().flow));
    }
}

/// Every packet in the window is on exactly one of the flows that are listed:
/// the listed counts of a kind add up to the window's.
pub proof fn law_listed_flows_add_up(
    out: Seq<(Flow, Dest)>,
    c: Counters,
    cutoff: int,
    k: Kind,
)
    requires
        lists_flows(out, c, cutoff),
    ensures
        listed_total(out, k) == c.seen(any_flow(), k, cutoff),
{
    assert forall|i: int, j: int| 0 <= i < j < out.len() implies (#[trigger] out[i]).0 != (
    #[trigger] out[j]).0 by {
        assert(busier(out[i], out[j]));
        if out[i].0 == out[j].0 {
            assert forall|kk: Kind| out[i].1.counts@[#[trigger] slot_of(kk)]
                == out[j].1.counts@[slot_of(kk)] by {}
            assert(out[i].1.counts@[slot_of(Kind::ClientRequest)]
                == out[j].1.counts@[slot_of(Kind::ClientRequest)]);
            assert(out[i].1.counts@[slot_of(Kind::ServerReply)]
                == out[j].1.counts@[slot_of(Kind::ServerReply)]);
            assert(out[i].1.counts@[slot_of(Kind::TftpRequest)]
                == out[j].1.counts@[slot_of(Kind::TftpRequest)]);
            assert(out[i].1.counts@[slot_of(Kind::TftpReply)]
                == out[j].1.counts@[slot_of(Kind::TftpReply)]);
        }
    }
    lemma_listed_total(out, c, k, cutoff);
    assert forall|f: Flow| #[trigger] last_held(c.buckets@, f, cutoff) is Some implies among(
        out,
    )(f) by {
        assert(c.last_seen(f, cutoff) is Some);
    }
    lemma_held_covered(c.buckets@, among(out), k, cutoff);
}

/// Forgetting twice at one moment is forgetting once.
pub proof fn lemma_expired_twice(before: Counters, once: Counters, twice: Counters, now: u64)
    requires
        expired(before, once, now) || once == before,
        expired(once, twice, now),
    ensures
        expired(before, twice, now),
        forall|want: spec_fn(Flow) -> bool, k: Kind| #[trigger]
            once.seen(want, k, cutoff_at(before.span(), now)) == before.seen(
                want,
                k,
                cutoff_at(before.span(), now),
            ),
{
    let cutoff = cutoff_at(before.span(), now);
    if once != before {
        assert forall|want: spec_fn(Flow) -> bool, k: Kind, c: int| #[trigger]
            twice.seen(want, k, c) == before.seen(want, k, later(c, cutoff)) by {
            assert(twice.seen(want, k, c) == once.seen(want, k, later(c, cutoff)));
            assert(once.seen(want, k, later(c, cutoff)) == before.seen(
                want,
                k,
                later(later(c, cutoff), cutoff),
            ));
        }
        assert forall|f: Flow, c: int| #[trigger]
            twice.last_seen(f, c) == before.last_seen(f, later(c, cutoff)) by {
            assert(twice.last_seen(f, c) == once.last_seen(f, later(c, cutoff)));
            assert(once.last_seen(f, later(c, cutoff)) == before.last_seen(
                f,
                later(later(c, cutoff), cutoff),
            ));
        }
    }
}

/// What is listed after forgetting is what was to be listed before.
pub proof fn lemma_lists_before_expiry(
    out: Seq<(Flow, Dest)>,
    before: Counters,
    after: Counters,
    now: u64,
)
    requires
        expired(before, after, now),
        lists_flows(out, after, cutoff_at(after.span(), now)),
    ensures
        lists_flows(out, before, cutoff_at(before.span(), now)),
{
    let cutoff = cutoff_at(before.span(), now);
    assert forall|f: Flow| #[trigger] before.last_seen(f, cutoff) == after.last_seen(
        f,
        cutoff,
    ) by {
        assert(after.last_seen(f, cutoff) == before.last_seen(f, later(cutoff, cutoff)));
    }
    assert forall|want: spec_fn(Flow) -> bool, k: Kind| #[trigger]
        before.seen(want, k, cutoff) == after.seen(want, k, cutoff) by {
        assert(after.seen(want, k, cutoff) == before.seen(want, k, later(cutoff, cutoff)));
    }
    assert forall|i: int| 0 <= i < out.len() implies before.last_seen(
        (#[trigger] out[i]).0,
        cutoff,
    ) == Some(out[i].1.last) by {
        assert(after.last_seen(out[i].0, cutoff) == Some(out[i].1.last));
    }
    assert forall|f: Flow| #[trigger] before.last_seen(f, cutoff) is Some implies exists|i: int|
        0 <= i < out.len() && (#[trigger] out[i]).0 == f by {
        assert(after.last_seen(f, cutoff) is Some);
    }
}

// What each count is for.

/// How many packets of a run are of one kind and within the last `window`
/// seconds of `now`, on all flows or on those through one relay interface. A
/// packet counts for as many seconds as the window is long, its own among them.
pub open spec fn recent(
    events: Seq<Event>,
    k: Kind,
    through_gi: Option<Ipv4Addr>,
    window: u64,
    now: u64,
) -> nat
    decreases events.len(),
{
    if events.len() == 0 {
        0
    } else {
        recent(events.drop_last(), k, through_gi, window, now) + (match events.last() {
            Event::Packet { kind, flow, at } => if kind == k && at > 0 && at + window > now && (
            through_gi is None || flow.gi == through_gi) {
                1nat
            } else {
                0nat
            },
            _ => 0nat,
        })
    }
}

proof fn lemma_recent(
    events: Seq<Event>,
    k: Kind,
    through_gi: Option<Ipv4Addr>,
    want: spec_fn(Flow) -> bool,
    window: u64,
    now: u64,
)
    requires
        forall|f: Flow| #[trigger] want(f) <==> through_gi is None || f.gi == through_gi,
    ensures
        arrived(events, want, k, cutoff_at(window, now)) == recent(
            events,
            k,
            through_gi,
            window,
            now,
        ),
    decreases events.len(),
{
    if events.len() > 0 {
        lemma_recent(events.drop_last(), k, through_gi, want, window, now);
        if let Event::Packet { kind, flow, at } = events.last() {
            assert(want(flow) <==> through_gi is None || flow.gi == through_gi);
        }
    }
}

/// What a window gives is what arrived within it: for every kind the packets of
/// the last so many seconds, and for a relay interface those of them that went
/// through it; whatever else was looked at in between. The totals give all of
/// them.
pub proof fn law_a_window_counts_the_last_seconds(
    states: Seq<Counters>,
    events: Seq<Event>,
    k: Kind,
    gi: Ipv4Addr,
    now: u64,
)
    requires
        recorded(states, events),
        events.len() > 0 ==> events.last().moment() <= now,
    ensures
        ({
            let c = states.last();
            let w = states[0].span();
            &&& c.span() == w
            &&& c.seen(any_flow(), k, cutoff_at(c.span(), now)) == recent(events, k, None, w, now)
            &&& c.seen(through(gi), k, cutoff_at(c.span(), now)) == recent(
                events,
                k,
                Some(gi),
                w,
                now,
            )
            &&& c.in_all().count(k) == recorded_in_all(events, k)
        }),
{
    let cut = cutoff_at(states[0].span(), now);
    law_window_holds_what_arrived(states, events, any_flow(), k, arbitrary(), cut);
    law_window_holds_what_arrived(states, events, through(gi), k, arbitrary(), cut);
    lemma_recent(events, k, None, any_flow(), states[0].span(), now);
    lemma_recent(events, k, Some(gi), through(gi), states[0].span(), now);
    lemma_in_all(events, k);
}

/// How many packets of a run are of one kind.
pub open spec fn recorded_in_all(events: Seq<Event>, k: Kind) -> nat
    decreases events.len(),
{
    if events.len() == 0 {
        0
    } else {
        recorded_in_all(events.drop_last(), k) + (match events.last() {
            Event::Packet { kind, .. } => if kind == k {
                1nat
            } else {
                0nat
            },
            _ => 0nat,
        })
    }
}

proof fn lemma_in_all(events: Seq<Event>, k: Kind)
    ensures
        arrived(events, any_flow(), k, -1) == recorded_in_all(events, k),
    decreases events.len(),
{
    if events.len() > 0 {
        lemma_in_all(events.drop_last(), k);
        if let Event::Packet { flow, .. } = events.last() {
            assert(any_flow()(flow));
        }
    }
}

/// Each kind has a count of its own.
pub proof fn law_each_kind_has_its_own_count(w: Window)
    ensures
        w.count(Kind::ClientRequest) == w.requests,
        w.count(Kind::ServerReply) == w.replies,
        w.count(Kind::TftpRequest) == w.tftp_reads,
        w.count(Kind::TftpReply) == w.tftp_sends,
{
}

/// How many packets of a run are of one kind, on one flow, and within the last
/// `window` seconds of `now`.
pub open spec fn recent_on(
    events: Seq<Event>,
    k: Kind,
    f: Flow,
    window: u64,
    now: u64,
) -> nat
    decreases events.len(),
{
    if events.len() == 0 {
        0
    } else {
        recent_on(events.drop_last(), k, f, window, now) + (match events.last() {
            Event::Packet { kind, flow, at } => if kind == k && at > 0 && at + window > now && flow
                == f {
                1nat
            } else {
                0nat
            },
            _ => 0nat,
        })
    }
}

proof fn lemma_recent_on(events: Seq<Event>, k: Kind, f: Flow, window: u64, now: u64)
    ensures
        arrived(events, only(f), k, cutoff_at(window, now)) == recent_on(events, k, f, window, now),
    decreases events.len(),
{
    if events.len() > 0 {
        lemma_recent_on(events.drop_last(), k, f, window, now);
        if let Event::Packet { kind, flow, at } = events.last() {
            assert(only(f)(flow) <==> flow == f);
        }
    }
}

/// When the last packet of a run came on a flow, within the last `window`
/// seconds of `now`.
pub open spec fn last_on(events: Seq<Event>, f: Flow, window: u64, now: u64) -> Option<u64>
    decreases events.len(),
{
    if events.len() == 0 {
        None
    } else {
        match events.last() {
            Event::Packet { flow, at, .. } => if flow == f && at > 0 && at + window > now {
                Some(at)
            } else {
                last_on(events.drop_last(), f, window, now)
            },
            _ => last_on(events.drop_last(), f, window, now),
        }
    }
}

proof fn lemma_last_on(events: Seq<Event>, f: Flow, window: u64, now: u64)
    ensures
        last_arrival(events, f, cutoff_at(window, now)) == last_on(events, f, window, now),
    decreases events.len(),
{
    if events.len() > 0 {
        lemma_last_on(events.drop_last(), f, window, now);
    }
}

/// A list of flows names every flow with a packet in the window, once, and no
/// other, with what arrived on it of each kind and when the last packet did;
/// and none stands behind one with fewer packets.
pub proof fn law_listed_flows_are_what_arrived(
    states: Seq<Counters>,
    events: Seq<Event>,
    out: Seq<(Flow, Dest)>,
    f: Flow,
    now: u64,
)
    requires
        recorded(states, events),
        events.len() > 0 ==> events.last().moment() <= now,
        lists_flows(out, states.last(), cutoff_at(states.last().span(), now)),
    ensures
        ({
            let w = states[0].span();
            &&& last_on(events, f, w, now) is Some <==> exists|i: int|
                0 <= i < out.len() && (#[trigger] out[i]).0 == f
            &&& forall|i: int|
                0 <= i < out.len() && (#[trigger] out[i]).0 == f ==> {
                    let d = out[i].1;
                    &&& d.counts@[0] == recent_on(events, Kind::ClientRequest, f, w, now)
                    &&& d.counts@[1] == recent_on(events, Kind::ServerReply, f, w, now)
                    &&& d.counts@[2] == recent_on(events, Kind::TftpRequest, f, w, now)
                    &&& d.counts@[3] == recent_on(events, Kind::TftpReply, f, w, now)
                    &&& Some(d.last) == last_on(events, f, w, now)
                }
            &&& forall|i: int, j: int|
                0 <= i < j < out.len() ==> {
                    let (a, b) = ((#[trigger] out[i]).1.counts@, (#[trigger] out[j]).1.counts@);
                    let (x, y) = (a[0] + a[1] + a[2] + a[3], b[0] + b[1] + b[2] + b[3]);
                    x > y || x == y && out[i].0.rank() < out[j].0.rank()
                }
        }),
{
    let c = states.last();
    let w = states[0].span();
    let cut = cutoff_at(w, now);
    law_window_holds_what_arrived(states, events, only(f), Kind::ClientRequest, f, cut);
    law_window_holds_what_arrived(states, events, only(f), Kind::ServerReply, f, cut);
    law_window_holds_what_arrived(states, events, only(f), Kind::TftpRequest, f, cut);
    law_window_holds_what_arrived(states, events, only(f), Kind::TftpReply, f, cut);
    lemma_recent_on(events, Kind::ClientRequest, f, w, now);
    lemma_recent_on(events, Kind::ServerReply, f, w, now);
    lemma_recent_on(events, Kind::TftpRequest, f, w, now);
    lemma_recent_on(events, Kind::TftpReply, f, w, now);
    lemma_last_on(events, f, w, now);
    assert forall|i: int| 0 <= i < out.len() && (#[trigger] out[i]).0 == f implies {
        let d = out[i].1;
        &&& d.counts@[0] == recent_on(events, Kind::ClientRequest, f, w, now)
        &&& d.counts@[1] == recent_on(events, Kind::ServerReply, f, w, now)
        &&& d.counts@[2] == recent_on(events, Kind::TftpRequest, f, w, now)
        &&& d.counts@[3] == recent_on(events, Kind::TftpReply, f, w, now)
        &&& Some(d.last) == last_on(events, f, w, now)
    } by {
        let d = out[i].1;
        assert(d.counts@[slot_of(Kind::ClientRequest)] == c.seen(only(f), Kind::ClientRequest, cut));
        assert(d.counts@[slot_of(Kind::ServerReply)] == c.seen(only(f), Kind::ServerReply, cut));
        assert(d.counts@[slot_of(Kind::TftpRequest)] == c.seen(only(f), Kind::TftpRequest, cut));
        assert(d.counts@[slot_of(Kind::TftpReply)] == c.seen(only(f), Kind::TftpReply, cut));
    }
    assert forall|i: int, j: int| 0 <= i < j < out.len() implies {
        let (a, b) = ((#[trigger] out[i]).1.counts@, (#[trigger] out[j]).1.counts@);
        let (x, y) = (a[0] + a[1] + a[2] + a[3], b[0] + b[1] + b[2] + b[3]);
        x > y || x == y && out[i].0.rank() < out[j].0.rank()
    } by {
        assert(busier(out[i], out[j]));
    }
    if last_on(events, f, w, now) is Some {
        assert(c.last_seen(f, cut) is Some);
    }
}

/// Whether one address stands before another: those of four bytes first, and
/// then by their bits.
pub open spec fn stands_before(a: IpAddr, b: IpAddr) -> bool {
    match (a, b) {
        (IpAddr::V4(x), IpAddr::V4(y)) => x.bits < y.bits,
        (IpAddr::V4(_), IpAddr::V6(_)) => true,
        (IpAddr::V6(_), IpAddr::V4(_)) => false,
        (IpAddr::V6(x), IpAddr::V6(y)) => x.bits < y.bits,
    }
}

/// Flows stand in the order of their sources, then of their destinations, then
/// of their gi-addresses, one without before all with.
pub proof fn law_flows_stand_in_order(a: Flow, b: Flow)
    ensures
        a.rank() < b.rank() <==> {
            ||| stands_before(a.src, b.src)
            ||| a.src == b.src && stands_before(a.dst, b.dst)
            ||| a.src == b.src && a.dst == b.dst && a.gi is None && b.gi is Some
            ||| a.src == b.src && a.dst == b.dst && a.gi is Some && b.gi is Some && (a.gi->0).bits
                < (b.gi->0).bits
        },
{
    reveal(Flow::rank);
}

// What each operation gives its caller.

/// What is answered is the replies of the requests, and nought where nothing was
/// asked.
pub proof fn law_what_is_answered(w: Window, r: Fraction)
    requires
        call_ensures(Window::answered, (w,), r),
    ensures
        r.den > 0,
        w.requests > 0 ==> r.num == w.replies && r.den == w.requests,
        w.requests == 0 ==> r.num == 0,
{
}

/// A new count has seen nothing, over a window of at least a second.
pub proof fn law_a_new_count_has_seen_nothing(window: u64, r: Counters, k: Kind, total: Window)
    requires
        call_ensures(Counters::new, (window,), r),
        call_ensures(Counters::total, (&r,), total),
    ensures
        r.well_formed(),
        window > 0 ==> r.span() == window,
        window == 0 ==> r.span() == 1,
        total.requests == 0 && total.replies == 0 && total.tftp_reads == 0 && total.tftp_sends == 0,
        r.seen(any_flow(), k, 0) == 0,
{
}

} // verus!
