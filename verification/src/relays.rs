//! What each relay interface is doing, and how well it is being answered.
//!
//! A plant is not one thing: one CMTS should never be silent for five
//! minutes, and another is properly silent for an hour. So everything here is
//! per gi-address, the field that names one CMTS interface.
//!
//! A request and its answer carry the same transaction id, and the gap
//! between them is the server's response time as the CMTS experiences it.

use std::collections::BTreeMap;
use vstd::prelude::*;

use crate::addr::Ipv4Addr;

verus! {

broadcast use {vstd::std_specs::btree::group_btree_axioms, vstd::laws_cmp::group_laws_cmp};

/// How long an unanswered request is remembered before it is written off.
pub const PENDING_FOR_MS: u64 = 30_000;

/// The most requests awaiting an answer at once.
pub const MAX_PENDING: usize = 50_000;

/// How often the pending table is swept.
pub const SWEEP_EVERY_MS: u64 = 1_000;

/// One CMTS interface, as the wire shows it.
#[derive(Clone, Copy, Debug)]
pub struct Relay {
    pub requests: u64,
    pub replies: u64,
    pub tftp_requests: u64,
    pub tftp_sends: u64,
    /// When a request was last seen from here. This, not a count, is what
    /// says whether the interface has gone quiet.
    pub last_request: Option<u64>,
    pub last_reply: Option<u64>,
    pub first_seen: u64,
    /// The longest run of seconds between one request and the next.
    pub longest_gap: u64,
    /// Requests that got an answer, and how long they waited.
    pub answered: u64,
    pub answer_ms_total: u64,
    pub answer_ms_worst: u64,
}

/// A request that waits for its answer.
#[derive(Clone, Copy, Debug)]
pub struct Pending {
    pub at_ms: u64,
    pub gi: Option<Ipv4Addr>,
}

/// Every relay interface seen, and the requests still waiting for an answer.
#[derive(Debug)]
pub struct Relays {
    by_gi: BTreeMap<u32, Relay>,
    /// A row for everything with no gi-address: direct DHCP, and all TFTP.
    unrelayed: Relay,
    pending: BTreeMap<u32, Pending>,
    /// When the pending table was last swept.
    swept_ms: u64,
}

// Rows.

/// A row that has counted nothing, first seen at `now`.
pub open spec fn fresh_row(now: u64) -> Relay {
    Relay {
        requests: 0,
        replies: 0,
        tftp_requests: 0,
        tftp_sends: 0,
        last_request: None,
        last_reply: None,
        first_seen: now,
        longest_gap: 0,
        answered: 0,
        answer_ms_total: 0,
        answer_ms_worst: 0,
    }
}

/// `a - b`, or nothing when that is negative.
pub open spec fn since(a: u64, b: u64) -> u64 {
    if a >= b {
        (a - b) as u64
    } else {
        0
    }
}

/// The larger of two.
pub open spec fn larger(a: u64, b: u64) -> u64 {
    if a >= b {
        a
    } else {
        b
    }
}

/// A row after one more request.
pub open spec fn with_request(r: Relay, now: u64) -> Relay {
    Relay {
        requests: (r.requests + 1) as u64,
        longest_gap: match r.last_request {
            Some(last) => larger(r.longest_gap, since(now, last)),
            None => r.longest_gap,
        },
        last_request: Some(now),
        ..r
    }
}

/// A row after one more reply, which answered a request after `took`
/// milliseconds when it answered one that is known.
pub open spec fn with_reply(r: Relay, now: u64, took: Option<u64>) -> Relay {
    let counted = Relay { replies: (r.replies + 1) as u64, last_reply: Some(now), ..r };
    match took {
        Some(ms) => Relay {
            answered: (r.answered + 1) as u64,
            answer_ms_total: (r.answer_ms_total + ms) as u64,
            answer_ms_worst: larger(r.answer_ms_worst, ms),
            ..counted
        },
        None => counted,
    }
}

/// What holds of every row: no answer was counted that was no reply, and the
/// answers took no longer than the worst of them, each.
pub open spec fn row_ok(r: Relay) -> bool {
    &&& r.answered <= r.replies
    &&& r.answer_ms_total <= r.answered * r.answer_ms_worst
}

impl Default for Relay {
    fn default() -> (r: Relay)
        ensures
            r == fresh_row(0),
    {
        Relay::fresh(0)
    }
}

impl Relay {
    fn fresh(now: u64) -> (r: Relay)
        ensures
            r == fresh_row(now),
    {
        Relay {
            requests: 0,
            replies: 0,
            tftp_requests: 0,
            tftp_sends: 0,
            last_request: None,
            last_reply: None,
            first_seen: now,
            longest_gap: 0,
            answered: 0,
            answer_ms_total: 0,
            answer_ms_worst: 0,
        }
    }

    /// Mean answer time in milliseconds, or None when nothing was answered.
    pub fn answer_ms_mean(&self) -> (r: Option<u64>)
        ensures
            r == (if self.answered > 0 {
                Some((self.answer_ms_total / self.answered) as u64)
            } else {
                None
            }),
    {
        if self.answered > 0 {
            Some(self.answer_ms_total / self.answered)
        } else {
            None
        }
    }

    /// Seconds since a request last arrived, or None if none ever has.
    pub fn idle_for(&self, now: u64) -> (r: Option<u64>)
        ensures
            r == (match self.last_request {
                Some(last) => Some(since(now, last)),
                None => None,
            }),
    {
        match self.last_request {
            Some(last) => Some(now.saturating_sub(last)),
            None => None,
        }
    }

    /// Everything counted here, as a number without bound.
    pub open spec fn packets(&self) -> nat {
        self.requests as nat + self.replies as nat + self.tftp_requests as nat
            + self.tftp_sends as nat
    }

    /// Everything counted here, for deciding whether the row is worth a line.
    pub fn total(&self) -> (r: u64)
        requires
            self.packets() <= u64::MAX,
        ensures
            r == self.packets(),
    {
        self.requests + self.replies + self.tftp_requests + self.tftp_sends
    }
}

// The requests that wait for their answers.

/// Whether a request has waited too long to be remembered.
pub open spec fn is_written_off(p: Pending, now_ms: u64) -> bool {
    p.at_ms + PENDING_FOR_MS <= now_ms
}

/// The table after the sweep that is due at `now_ms`, if one is: whatever is
/// written off is gone.
pub open spec fn after_sweep(
    table: Map<u32, Pending>,
    swept_ms: u64,
    now_ms: u64,
) -> Map<u32, Pending> {
    if since(now_ms, swept_ms) < SWEEP_EVERY_MS {
        table
    } else {
        table.restrict(table.dom().filter(|x: u32| !is_written_off(table[x], now_ms)))
    }
}

/// The table after one more request: the request waits, in place of an earlier
/// one of the same transaction, unless too many wait already.
pub open spec fn with_pending(table: Map<u32, Pending>, x: u32, p: Pending) -> Map<u32, Pending> {
    if table.len() < MAX_PENDING {
        table.insert(x, p)
    } else {
        table
    }
}

/// The request that a reply answers, when it is known and not written off,
/// whether or not a sweep has come by since.
pub open spec fn request_of(
    table: Map<u32, Pending>,
    xid: Option<u32>,
    now_ms: u64,
) -> Option<Pending> {
    match xid {
        Some(x) => if table.contains_key(x) && !is_written_off(table[x], now_ms) {
            Some(table[x])
        } else {
            None
        },
        None => None,
    }
}

/// The interface that a reply belongs to: the one that asked, and the reply's
/// own where that is not known.
pub open spec fn owner_of(
    table: Map<u32, Pending>,
    gi: Option<Ipv4Addr>,
    xid: Option<u32>,
    now_ms: u64,
) -> Option<Ipv4Addr> {
    match request_of(table, xid, now_ms) {
        Some(p) => match p.gi {
            Some(g) => Some(g),
            None => gi,
        },
        None => gi,
    }
}

/// How long the request that a reply answers has waited.
pub open spec fn waited(table: Map<u32, Pending>, xid: Option<u32>, now_ms: u64) -> Option<u64> {
    match request_of(table, xid, now_ms) {
        Some(p) => Some(since(now_ms, p.at_ms)),
        None => None,
    }
}

impl Relays {
    /// The rows of the relay interfaces, by address.
    pub closed spec fn rows(&self) -> Map<u32, Relay> {
        self.by_gi@
    }

    /// The row of everything with no gi-address.
    pub closed spec fn direct(&self) -> Relay {
        self.unrelayed
    }

    /// The requests that wait, by transaction id.
    pub closed spec fn table(&self) -> Map<u32, Pending> {
        self.pending@
    }

    /// When the table was last swept.
    pub closed spec fn swept(&self) -> u64 {
        self.swept_ms
    }

    /// The row that a packet with this gi-address is counted in, as it stands
    /// before it is counted.
    pub open spec fn row(&self, gi: Option<Ipv4Addr>, now: u64) -> Relay {
        match gi {
            Some(g) => if self.rows().contains_key(g.bits) {
                self.rows()[g.bits]
            } else {
                fresh_row(now)
            },
            None => if self.direct().first_seen == 0 {
                Relay { first_seen: now, ..self.direct() }
            } else {
                self.direct()
            },
        }
    }

    /// What every operation keeps: the table is bounded, and the rows make
    /// sense.
    pub open spec fn well_formed(&self) -> bool {
        &&& self.table().dom().finite()
        &&& self.table().len() <= MAX_PENDING
        &&& forall|g: u32| #[trigger] self.rows().contains_key(g) ==> row_ok(self.rows()[g])
        &&& row_ok(self.direct())
    }

    /// Whether a packet can be counted: no count of its row is at its limit.
    pub open spec fn room_for_request(&self, gi: Option<Ipv4Addr>) -> bool {
        self.row(gi, 0).requests < u64::MAX
    }

    /// The same of a reply, whose answer time is added up as well.
    pub open spec fn room_for_reply(
        &self,
        gi: Option<Ipv4Addr>,
        xid: Option<u32>,
        now_ms: u64,
    ) -> bool {
        let row = self.row(owner_of(self.table(), gi, xid, now_ms), 0);
        &&& row.replies < u64::MAX
        &&& waited(self.table(), xid, now_ms) matches Some(ms) ==> row.answer_ms_total + ms
            <= u64::MAX
    }
}

/// Whether exactly the row of one gi-address was replaced by `row`.
pub open spec fn row_replaced(
    before: Relays,
    after: Relays,
    gi: Option<Ipv4Addr>,
    row: Relay,
) -> bool {
    match gi {
        Some(g) => after.rows() == before.rows().insert(g.bits, row) && after.direct()
            == before.direct(),
        None => after.rows() == before.rows() && after.direct() == row,
    }
}

/// Whether recording a request took one state to another.
pub open spec fn requested(
    before: Relays,
    after: Relays,
    gi: Option<Ipv4Addr>,
    xid: Option<u32>,
    now: u64,
    now_ms: u64,
) -> bool {
    &&& row_replaced(before, after, gi, with_request(before.row(gi, now), now))
    &&& match xid {
        Some(x) => {
            &&& after.table() == with_pending(
                after_sweep(before.table(), before.swept(), now_ms),
                x,
                Pending { at_ms: now_ms, gi },
            )
            &&& after.swept() == (if since(now_ms, before.swept()) < SWEEP_EVERY_MS {
                before.swept()
            } else {
                now_ms
            })
        },
        None => after.table() == before.table() && after.swept() == before.swept(),
    }
}

/// Whether recording a reply took one state to another.
pub open spec fn replied(
    before: Relays,
    after: Relays,
    gi: Option<Ipv4Addr>,
    xid: Option<u32>,
    now: u64,
    now_ms: u64,
) -> bool {
    let owner = owner_of(before.table(), gi, xid, now_ms);
    &&& row_replaced(
        before,
        after,
        owner,
        with_reply(before.row(owner, now), now, waited(before.table(), xid, now_ms)),
    )
    &&& after.table() == (match xid {
        Some(x) => before.table().remove(x),
        None => before.table(),
    })
    &&& after.swept() == before.swept()
}

/// Whether recording a TFTP packet took one state to another: only the row of
/// everything unrelayed changes, and of it neither the requests nor the
/// replies.
pub open spec fn fetched(before: Relays, after: Relays, now: u64, reads: nat, sends: nat) -> bool {
    &&& after.rows() == before.rows()
    &&& after.table() == before.table()
    &&& after.swept() == before.swept()
    &&& after.direct() == (Relay {
        tftp_requests: (before.direct().tftp_requests + reads) as u64,
        tftp_sends: (before.direct().tftp_sends + sends) as u64,
        ..before.row(None, now)
    })
}

impl Default for Relays {
    fn default() -> (r: Relays)
        ensures
            r.well_formed(),
            r.rows() == Map::<u32, Relay>::empty(),
            r.direct() == fresh_row(0),
            r.table() == Map::<u32, Pending>::empty(),
            r.swept() == 0,
    {
        Relays {
            by_gi: BTreeMap::new(),
            unrelayed: Relay::fresh(0),
            pending: BTreeMap::new(),
            swept_ms: 0,
        }
    }
}

impl Pending {
    fn is_dead(&self, now_ms: u64) -> (r: bool)
        ensures
            r == is_written_off(*self, now_ms),
    {
        now_ms >= PENDING_FOR_MS && self.at_ms <= now_ms - PENDING_FOR_MS
    }

    /// This request, unless it is written off by now.
    fn alive(self, now_ms: u64) -> (r: Option<Pending>)
        ensures
            r == (if is_written_off(self, now_ms) {
                None
            } else {
                Some(self)
            }),
    {
        if self.is_dead(now_ms) {
            None
        } else {
            Some(self)
        }
    }
}

impl Relays {
    /// The row that a packet with this gi-address is counted in.
    fn entry(&self, gi: Option<Ipv4Addr>, now: u64) -> (r: Relay)
        ensures
            r == self.row(gi, now),
    {
        match gi {
            Some(g) => match self.by_gi.get(&g.bits) {
                Some(r) => *r,
                None => Relay::fresh(now),
            },
            None => {
                let mut r = self.unrelayed;
                if r.first_seen == 0 {
                    r.first_seen = now;
                }
                r
            },
        }
    }

    /// Puts a row back.
    fn put(&mut self, gi: Option<Ipv4Addr>, row: Relay)
        ensures
            row_replaced(*old(self), *final(self), gi, row),
            final(self).table() == old(self).table(),
            final(self).swept() == old(self).swept(),
    {
        match gi {
            Some(g) => {
                let _ = self.by_gi.insert(g.bits, row);
            },
            None => {
                self.unrelayed = row;
            },
        }
    }

    /// Sweeps the table, when a sweep is due.
    fn expire_pending(&mut self, now_ms: u64)
        requires
            old(self).well_formed(),
        ensures
            final(self).well_formed(),
            final(self).rows() == old(self).rows(),
            final(self).direct() == old(self).direct(),
            final(self).table() == after_sweep(old(self).table(), old(self).swept(), now_ms),
            final(self).swept() == (if since(now_ms, old(self).swept()) < SWEEP_EVERY_MS {
                old(self).swept()
            } else {
                now_ms
            }),
    {
        if now_ms.saturating_sub(self.swept_ms) < SWEEP_EVERY_MS {
            return;
        }
        self.swept_ms = now_ms;
        let dead = self.written_off(now_ms);
        let ghost before = self.pending@;
        let mut i: usize = 0;
        while i < dead.len()
            invariant
                i <= dead@.len(),
                self.by_gi@ == old(self).by_gi@,
                self.unrelayed == old(self).unrelayed,
                self.swept_ms == now_ms,
                forall|x: u32| #[trigger]
                    self.pending@.contains_key(x) <==> before.contains_key(x) && !dead@.take(
                        i as int,
                    ).contains(x),
                forall|x: u32| #[trigger]
                    self.pending@.contains_key(x) ==> self.pending@[x] == before[x],
            decreases dead@.len() - i,
        {
            let ghost now_held = self.pending@;
            let x: u32 = dead[i];
            let _ = self.pending.remove(&x);
            proof {
                let done = dead@.take(i as int);
                let more = dead@.take(i + 1);
                assert(more =~= done.push(x));
                assert forall|y: u32| #[trigger] more.contains(y) <==> done.contains(y) || y
                    == x by {
                    if done.contains(y) {
                        let j = choose|j: int| 0 <= j < done.len() && done[j] == y;
                        assert(more[j] == y);
                    }
                    assert(more[i as int] == x);
                }
                assert(self.pending@ == now_held.remove(x));
            }
            i = i + 1;
        }
        proof {
            assert(dead@.take(dead@.len() as int) =~= dead@);
            let kept = before.dom().filter(|x: u32| !is_written_off(before[x], now_ms));
            assert forall|x: u32| #[trigger] self.pending@.contains_key(x) <==> kept.contains(x) by {
                if before.contains_key(x) && is_written_off(before[x], now_ms) {
                    assert(dead@.contains(x));
                }
                if dead@.contains(x) {
                    let j = choose|j: int| 0 <= j < dead@.len() && dead@[j] == x;
                    assert(is_written_off(before[dead@[j]], now_ms));
                }
            }
            assert(self.pending@ =~= before.restrict(kept));
            vstd::set_lib::lemma_len_subset(self.pending@.dom(), before.dom());
            assert(self.rows() == old(self).rows());
        }
    }

    /// The requests that are written off by now.
    fn written_off(&self, now_ms: u64) -> (dead: Vec<u32>)
        ensures
            forall|x: u32| #[trigger]
                dead@.contains(x) ==> self.pending@.contains_key(x) && is_written_off(
                    self.pending@[x],
                    now_ms,
                ),
            forall|x: u32| #[trigger]
                self.pending@.contains_key(x) && is_written_off(self.pending@[x], now_ms)
                    ==> dead@.contains(x),
    {
        let mut dead: Vec<u32> = Vec::new();
        let iter = self.pending.iter();
        let ghost all = vstd::std_specs::iter::IteratorSpec::remaining(&iter);
        for (x, p) in it: iter
            invariant
                it.seq() == all,
                forall|j: int|
                    0 <= j < all.len() ==> self.pending@.contains_key(*(#[trigger] all[j]).0)
                        && self.pending@[*all[j].0] == *all[j].1,
                forall|j: int|
                    0 <= j < it.index() && is_written_off(*(#[trigger] all[j]).1, now_ms)
                        ==> dead@.contains(*all[j].0),
                forall|y: u32| #[trigger]
                    dead@.contains(y) ==> self.pending@.contains_key(y) && is_written_off(
                        self.pending@[y],
                        now_ms,
                    ),
        {
            let ghost so_far = dead@;
            if p.is_dead(now_ms) {
                dead.push(*x);
                proof {
                    assert(dead@ =~= so_far.push(*x));
                    assert forall|y: u32| #[trigger] dead@.contains(y) <==> so_far.contains(y) || y
                        == *x by {
                        if so_far.contains(y) {
                            let j = choose|j: int| 0 <= j < so_far.len() && so_far[j] == y;
                            assert(dead@[j] == y);
                        }
                        assert(dead@[so_far.len() as int] == *x);
                    }
                }
            }
        }
        proof {
            assert forall|y: u32| #[trigger]
                self.pending@.contains_key(y) && is_written_off(
                    self.pending@[y],
                    now_ms,
                ) implies dead@.contains(y) by {
                assert(all.contains((&y, &self.pending@[y])));
                let j = choose|j: int| 0 <= j < all.len() && all[j] == (&y, &self.pending@[y]);
                assert(is_written_off(*all[j].1, now_ms));
            }
        }
        dead
    }

    /// Records a client request.
    pub fn request(&mut self, gi: Option<Ipv4Addr>, xid: Option<u32>, now: u64, now_ms: u64)
        requires
            old(self).well_formed(),
            old(self).room_for_request(gi),
        ensures
            final(self).well_formed(),
            requested(*old(self), *final(self), gi, xid, now, now_ms),
    {
        let mut r = self.entry(gi, now);
        r.requests = r.requests + 1;
        if let Some(last) = r.last_request {
            let gap: u64 = now.saturating_sub(last);
            if gap > r.longest_gap {
                r.longest_gap = gap;
            }
        }
        r.last_request = Some(now);
        self.put(gi, r);
        proof {
            assert(r == with_request(old(self).row(gi, now), now));
        }
        if let Some(x) = xid {
            self.expire_pending(now_ms);
            if self.pending.len() < MAX_PENDING {
                let _ = self.pending.insert(x, Pending { at_ms: now_ms, gi });
            }
        }
    }

    /// Records a server reply, and times it against the request it answers.
    ///
    /// A reply belongs to the interface that asked. The interface it was
    /// counted for is returned.
    pub fn reply(&mut self, gi: Option<Ipv4Addr>, xid: Option<u32>, now: u64, now_ms: u64) -> (owner:
        Option<Ipv4Addr>)
        requires
            old(self).well_formed(),
            old(self).room_for_reply(gi, xid, now_ms),
        ensures
            final(self).well_formed(),
            replied(*old(self), *final(self), gi, xid, now, now_ms),
            owner == owner_of(old(self).table(), gi, xid, now_ms),
    {
        let asked: Option<Pending> = match xid {
            Some(x) => match self.pending.remove(&x) {
                Some(p) => p.alive(now_ms),
                None => None,
            },
            None => None,
        };
        proof {
            if xid is Some {
                vstd::set_lib::lemma_len_subset(self.pending@.dom(), old(self).pending@.dom());
            }
        }
        let owner: Option<Ipv4Addr> = match asked {
            Some(p) => match p.gi {
                Some(g) => Some(g),
                None => gi,
            },
            None => gi,
        };
        let mut r = self.entry(owner, now);
        let ghost was = r;
        proof {
            assert(was == old(self).row(owner, now));
            assert(row_ok(was));
        }
        r.replies = r.replies + 1;
        r.last_reply = Some(now);
        if let Some(p) = asked {
            let took: u64 = now_ms.saturating_sub(p.at_ms);
            r.answered = r.answered + 1;
            r.answer_ms_total = r.answer_ms_total + took;
            if took > r.answer_ms_worst {
                r.answer_ms_worst = took;
            }
            proof {
                let a = was.answered as int;
                let w = was.answer_ms_worst as int;
                let m = r.answer_ms_worst as int;
                assert((a + 1) * m == a * m + m) by (nonlinear_arith);
                assert(a * w <= a * m) by (nonlinear_arith)
                    requires
                        0 <= a,
                        w <= m,
                ;
            }
        }
        self.put(owner, r);
        owner
    }

    /// Records a TFTP read request. TFTP carries no gi-address, so it lands
    /// in the row of everything unrelayed.
    pub fn tftp_request(&mut self, now: u64)
        requires
            old(self).well_formed(),
            old(self).direct().tftp_requests < u64::MAX,
        ensures
            final(self).well_formed(),
            fetched(*old(self), *final(self), now, 1, 0),
    {
        let mut r = self.entry(None, now);
        r.tftp_requests = r.tftp_requests + 1;
        self.put(None, r);
    }

    /// Records a TFTP packet that the server sent.
    pub fn tftp_send(&mut self, now: u64)
        requires
            old(self).well_formed(),
            old(self).direct().tftp_sends < u64::MAX,
        ensures
            final(self).well_formed(),
            fetched(*old(self), *final(self), now, 0, 1),
    {
        let mut r = self.entry(None, now);
        r.tftp_sends = r.tftp_sends + 1;
        self.put(None, r);
    }

    /// The relays, in address order.
    pub fn each(&self) -> (out: Vec<(Ipv4Addr, &Relay)>)
        ensures
            lists_rows(out@, self.rows()),
    {
        let mut out: Vec<(Ipv4Addr, &Relay)> = Vec::new();
        let iter = self.by_gi.iter();
        let ghost all = vstd::std_specs::iter::IteratorSpec::remaining(&iter);
        proof {
            let keys = all.map_values(|kv: (&u32, &Relay)| *kv.0);
            assert forall|i: int, j: int| 0 <= i < j < all.len() implies *(#[trigger] all[i]).0 < *(
            #[trigger] all[j]).0 by {
                assert(vstd::std_specs::cmp::OrdSpec::cmp_spec(&keys[i], &keys[j]) is Less);
            }
        }
        for (g, r) in it: iter
            invariant
                it.seq() == all,
                out@.len() == it.index(),
                forall|j: int|
                    0 <= j < out@.len() ==> (#[trigger] out@[j]).0.bits == *all[j].0 && *out@[j].1
                        == *all[j].1,
        {
            out.push((Ipv4Addr { bits: *g }, r));
        }
        proof {
            assert forall|g: u32| #[trigger] self.by_gi@.contains_key(g) implies exists|i: int|
                0 <= i < out@.len() && (#[trigger] out@[i]).0.bits == g by {
                assert(all.contains((&g, &self.by_gi@[g])));
                let i = choose|i: int| 0 <= i < all.len() && all[i] == (&g, &self.by_gi@[g]);
                assert(out@[i].0.bits == g);
            }
            assert forall|i: int| 0 <= i < out@.len() implies self.by_gi@.contains_key(
                (#[trigger] out@[i]).0.bits,
            ) && *out@[i].1 == self.by_gi@[out@[i].0.bits] by {
                assert(self.by_gi@.contains_key(*all[i].0));
            }
        }
        out
    }

    /// Everything with no gi-address, which is where TFTP lives.
    pub fn unrelayed(&self) -> (r: &Relay)
        ensures
            *r == self.direct(),
    {
        &self.unrelayed
    }

    /// How many requests are still waiting for an answer.
    pub fn waiting(&self) -> (r: usize)
        ensures
            r == self.table().len(),
    {
        self.pending.len()
    }

    /// Whether one more request through an interface can be counted.
    pub fn has_room_for_request(&self, gi: Option<Ipv4Addr>) -> (r: bool)
        ensures
            r == self.room_for_request(gi),
    {
        self.entry(gi, 0).requests < u64::MAX
    }

    /// Whether one more reply can be counted, and its answer time added up.
    pub fn has_room_for_reply(&self, gi: Option<Ipv4Addr>, xid: Option<u32>, now_ms: u64) -> (r:
        bool)
        ensures
            r == self.room_for_reply(gi, xid, now_ms),
    {
        let asked: Option<Pending> = match xid {
            Some(x) => match self.pending.get(&x) {
                Some(p) => p.alive(now_ms),
                None => None,
            },
            None => None,
        };
        let owner: Option<Ipv4Addr> = match asked {
            Some(p) => match p.gi {
                Some(g) => Some(g),
                None => gi,
            },
            None => gi,
        };
        let row = self.entry(owner, 0);
        let fits: bool = match asked {
            Some(p) => row.answer_ms_total <= u64::MAX - now_ms.saturating_sub(p.at_ms),
            None => true,
        };
        row.replies < u64::MAX && fits
    }
}

/// Whether a list holds exactly the rows, in the order of their addresses.
pub open spec fn lists_rows(out: Seq<(Ipv4Addr, &Relay)>, rows: Map<u32, Relay>) -> bool {
    &&& forall|i: int, j: int|
        0 <= i < j < out.len() ==> (#[trigger] out[i]).0.bits < (#[trigger] out[j]).0.bits
    &&& forall|i: int|
        0 <= i < out.len() ==> rows.contains_key((#[trigger] out[i]).0.bits) && *out[i].1
            == rows[out[i].0.bits]
    &&& forall|g: u32| #[trigger]
        rows.contains_key(g) ==> exists|i: int|
            0 <= i < out.len() && (#[trigger] out[i]).0.bits == g
}

// What holds of every run.

/// A call that records something.
pub ghost enum Call {
    Request { gi: Option<Ipv4Addr>, xid: Option<u32>, now: u64, now_ms: u64 },
    Reply { gi: Option<Ipv4Addr>, xid: Option<u32>, now: u64, now_ms: u64 },
    TftpRequest { now: u64 },
    TftpSend { now: u64 },
}

/// Whether a call took one state to another.
pub open spec fn called(before: Relays, after: Relays, call: Call) -> bool {
    match call {
        Call::Request { gi, xid, now, now_ms } => requested(before, after, gi, xid, now, now_ms),
        Call::Reply { gi, xid, now, now_ms } => replied(before, after, gi, xid, now, now_ms),
        Call::TftpRequest { now } => fetched(before, after, now, 1, 0),
        Call::TftpSend { now } => fetched(before, after, now, 0, 1),
    }
}

/// Whether the calls took the relays through `states`.
pub open spec fn ran(states: Seq<Relays>, calls: Seq<Call>) -> bool {
    &&& states.len() == calls.len() + 1
    &&& forall|i: int|
        0 <= i < calls.len() ==> called(states[i], states[i + 1], #[trigger] calls[i])
}

proof fn lemma_ran_less(states: Seq<Relays>, calls: Seq<Call>)
    requires
        ran(states, calls),
        calls.len() > 0,
    ensures
        ran(states.drop_last(), calls.drop_last()),
        called(states[calls.len() - 1], states[calls.len() as int], calls.last()),
        states.drop_last().last() == states[calls.len() - 1],
        states.drop_last()[0] == states[0],
{
    let (less, fewer) = (states.drop_last(), calls.drop_last());
    assert forall|i: int| 0 <= i < fewer.len() implies called(
        less[i],
        less[i + 1],
        #[trigger] fewer[i],
    ) by {
        assert(fewer[i] == calls[i]);
    }
    assert(calls[calls.len() - 1] == calls.last());
}

/// Whether a call leaves the request of one transaction alone: it is no packet
/// of that transaction, and comes before the request is written off.
pub open spec fn leaves_alone(call: Call, x: u32, p: Pending) -> bool {
    match call {
        Call::Request { xid, now_ms, .. } => xid != Some(x) && !is_written_off(p, now_ms),
        Call::Reply { xid, .. } => xid != Some(x),
        _ => true,
    }
}

proof fn lemma_still_waits(states: Seq<Relays>, calls: Seq<Call>, x: u32)
    requires
        ran(states, calls),
        states[0].table().contains_key(x),
        forall|i: int|
            0 <= i < calls.len() ==> leaves_alone(
                #[trigger] calls[i],
                x,
                states[0].table()[x],
            ),
    ensures
        states.last().table().contains_key(x),
        states.last().table()[x] == states[0].table()[x],
    decreases calls.len(),
{
    if calls.len() > 0 {
        lemma_ran_less(states, calls);
        let (less, fewer) = (states.drop_last(), calls.drop_last());
        assert forall|i: int| 0 <= i < fewer.len() implies leaves_alone(
            #[trigger] fewer[i],
            x,
            less[0].table()[x],
        ) by {
            assert(fewer[i] == calls[i]);
        }
        lemma_still_waits(less, fewer, x);
        assert(leaves_alone(calls[calls.len() - 1], x, states[0].table()[x]));
    }
}

/// A reply is credited to the interface that asked, and to its own where a
/// request came straight from a client; and it is timed from the last request
/// of its transaction, with whatever else between the two. All other rows stay
/// as they were, and the request no longer waits.
///
/// The request is the first of `calls`, made with room in the table; the rest
/// of them are no packets of its transaction and come before it is written
/// off, as the reply does.
pub proof fn law_an_answer_is_timed_against_its_request(
    states: Seq<Relays>,
    calls: Seq<Call>,
    after: Relays,
    asked_gi: Option<Ipv4Addr>,
    x: u32,
    asked: u64,
    asked_ms: u64,
    reply_gi: Option<Ipv4Addr>,
    now: u64,
    now_ms: u64,
)
    requires
        ran(states, calls),
        calls.len() > 0,
        calls[0] == (Call::Request { gi: asked_gi, xid: Some(x), now: asked, now_ms: asked_ms }),
        states[0].well_formed(),
        states[0].table().len() < MAX_PENDING,
        forall|i: int|
            1 <= i < calls.len() ==> leaves_alone(
                #[trigger] calls[i],
                x,
                Pending { at_ms: asked_ms, gi: asked_gi },
            ),
        asked_ms <= now_ms < asked_ms + PENDING_FOR_MS,
        states.last().well_formed(),
        replied(states.last(), after, reply_gi, Some(x), now, now_ms),
    ensures
        ({
            let owner = if asked_gi is Some {
                asked_gi
            } else {
                reply_gi
            };
            row_replaced(
                states.last(),
                after,
                owner,
                with_reply(states.last().row(owner, now), now, Some((now_ms - asked_ms) as u64)),
            )
        }),
        !after.table().contains_key(x),
        after.table().len() + 1 == states.last().table().len(),
{
    let p = Pending { at_ms: asked_ms, gi: asked_gi };
    let swept = after_sweep(states[0].table(), states[0].swept(), asked_ms);
    assert(called(states[0], states[1], calls[0]));
    vstd::set_lib::lemma_len_subset(swept.dom(), states[0].table().dom());
    assert(states[1].table() == swept.insert(x, p));
    let (rest, others) = (states.skip(1), calls.skip(1));
    assert forall|i: int| 0 <= i < others.len() implies called(
        rest[i],
        rest[i + 1],
        #[trigger] others[i],
    ) by {
        assert(others[i] == calls[i + 1]);
    }
    assert forall|i: int| 0 <= i < others.len() implies leaves_alone(
        #[trigger] others[i],
        x,
        rest[0].table()[x],
    ) by {
        assert(others[i] == calls[i + 1]);
    }
    lemma_still_waits(rest, others, x);
    assert(rest.last() == states.last());
}

/// A reply to nothing that still waits is counted and not timed: no request of
/// its transaction is known, or the one that is has been written off.
pub proof fn law_a_reply_to_nothing_is_not_timed(
    before: Relays,
    after: Relays,
    gi: Option<Ipv4Addr>,
    xid: Option<u32>,
    now: u64,
    now_ms: u64,
)
    requires
        replied(before, after, gi, xid, now, now_ms),
        xid matches Some(x) ==> !before.table().contains_key(x) || before.table()[x].at_ms
            + PENDING_FOR_MS <= now_ms,
        before.row(gi, now).replies < u64::MAX,
    ensures
        after.row(gi, now).replies == before.row(gi, now).replies + 1,
        after.row(gi, now).answered == before.row(gi, now).answered,
        after.row(gi, now).answer_ms_total == before.row(gi, now).answer_ms_total,
        after.row(gi, now).answer_ms_worst == before.row(gi, now).answer_ms_worst,
{
}

/// A second reply of a transaction is a reply to nothing, unless a new request
/// of it came in between: it is counted, and not timed.
pub proof fn law_a_second_reply_is_not_timed(
    before: Relays,
    states: Seq<Relays>,
    calls: Seq<Call>,
    after: Relays,
    first_gi: Option<Ipv4Addr>,
    gi: Option<Ipv4Addr>,
    x: u32,
    first: u64,
    first_ms: u64,
    now: u64,
    now_ms: u64,
)
    requires
        replied(before, states[0], first_gi, Some(x), first, first_ms),
        ran(states, calls),
        forall|i: int|
            0 <= i < calls.len() ==> !((#[trigger] calls[i]) is Request && calls[i]->Request_xid
                == Some(x)),
        replied(states.last(), after, gi, Some(x), now, now_ms),
    ensures
        row_replaced(
            states.last(),
            after,
            gi,
            with_reply(states.last().row(gi, now), now, None),
        ),
{
    lemma_does_not_wait(states, calls, x);
}

proof fn lemma_does_not_wait(states: Seq<Relays>, calls: Seq<Call>, x: u32)
    requires
        ran(states, calls),
        !states[0].table().contains_key(x),
        forall|i: int|
            0 <= i < calls.len() ==> !((#[trigger] calls[i]) is Request && calls[i]->Request_xid
                == Some(x)),
    ensures
        !states.last().table().contains_key(x),
    decreases calls.len(),
{
    if calls.len() > 0 {
        lemma_ran_less(states, calls);
        let (less, fewer) = (states.drop_last(), calls.drop_last());
        assert forall|i: int| 0 <= i < fewer.len() implies !((#[trigger] fewer[i]) is Request
            && fewer[i]->Request_xid == Some(x)) by {
            assert(fewer[i] == calls[i]);
        }
        lemma_does_not_wait(less, fewer, x);
        let last = calls[calls.len() - 1];
        assert(!(last is Request && last->Request_xid == Some(x)));
    }
}

/// A retry replaces the attempt that it repeats: what waits afterwards is the
/// last one sent.
pub proof fn law_a_retry_replaces_the_attempt(
    before: Relays,
    after: Relays,
    gi: Option<Ipv4Addr>,
    x: u32,
    now: u64,
    now_ms: u64,
)
    requires
        requested(before, after, gi, Some(x), now, now_ms),
        after_sweep(before.table(), before.swept(), now_ms).len() < MAX_PENDING,
    ensures
        after.table().contains_key(x),
        after.table()[x] == (Pending { at_ms: now_ms, gi }),
{
}

/// A request that has waited too long is taken out of the table by the next
/// sweep.
pub proof fn law_a_forgotten_request_waits_no_more(
    before: Relays,
    after: Relays,
    gi: Option<Ipv4Addr>,
    x: u32,
    other: u32,
    now: u64,
    now_ms: u64,
)
    requires
        requested(before, after, gi, Some(other), now, now_ms),
        x != other,
        before.table().contains_key(x),
        is_written_off(before.table()[x], now_ms),
        since(now_ms, before.swept()) >= SWEEP_EVERY_MS,
    ensures
        !after.table().contains_key(x),
{
}

/// When the requests through one interface came, of a run of calls; or those
/// without a gi-address.
pub open spec fn times_of(calls: Seq<Call>, gi: Option<Ipv4Addr>) -> Seq<u64>
    decreases calls.len(),
{
    if calls.len() == 0 {
        Seq::empty()
    } else {
        let earlier = times_of(calls.drop_last(), gi);
        match calls.last() {
            Call::Request { gi: g, now, .. } if g == gi => earlier.push(now),
            _ => earlier,
        }
    }
}

/// The longest of the gaps between one time and the next.
pub open spec fn longest_gap_of(times: Seq<u64>) -> u64
    decreases times.len(),
{
    if times.len() < 2 {
        0
    } else {
        larger(
            longest_gap_of(times.drop_last()),
            since(times.last(), times[times.len() - 2]),
        )
    }
}

/// The longest gap between an interface's requests is remembered: it is what
/// an idle threshold has to be bigger than. From nothing on, and with any
/// other calls in between, a row holds how many requests came through its
/// interface, when the last one did, and the longest gap between two of them;
/// other interfaces' requests, replies and TFTP change none of these.
pub proof fn law_the_longest_gap_is_remembered(
    states: Seq<Relays>,
    calls: Seq<Call>,
    gi: Option<Ipv4Addr>,
)
    requires
        ran(states, calls),
        states[0].rows() == Map::<u32, Relay>::empty(),
        states[0].direct() == fresh_row(0),
        calls.len() <= u64::MAX,
    ensures
        ({
            let row = states.last().row(gi, 0);
            let times = times_of(calls, gi);
            &&& row.requests == times.len()
            &&& row.longest_gap == longest_gap_of(times)
            &&& row.last_request == (if times.len() == 0 {
                None
            } else {
                Some(times.last())
            })
            &&& gi is Some && times.len() > 0 ==> states.last().rows().contains_key(gi->0.bits)
        }),
        times_of(calls, gi).len() <= calls.len(),
    decreases calls.len(),
{
    if calls.len() > 0 {
        lemma_ran_less(states, calls);
        law_the_longest_gap_is_remembered(states.drop_last(), calls.drop_last(), gi);
        let times = times_of(calls, gi);
        let earlier = times_of(calls.drop_last(), gi);
        if let Call::Request { gi: g, now, .. } = calls.last() {
            if g == gi {
                assert(times.drop_last() =~= earlier);
                if earlier.len() > 0 {
                    assert(times[times.len() - 2] == earlier.last());
                }
            }
        }
    }
}

/// The mean answer time is never above the worst.
pub proof fn law_the_mean_is_not_above_the_worst(r: Relay)
    requires
        row_ok(r),
        r.answered > 0,
    ensures
        r.answer_ms_total / r.answered <= r.answer_ms_worst,
{
    let (t, a, w) = (r.answer_ms_total as int, r.answered as int, r.answer_ms_worst as int);
    assert(t / a <= w) by (nonlinear_arith)
        requires
            t <= a * w,
            a > 0,
    ;
}

// Rows and answers, from the packets alone.

/// The request of a transaction that waits after a run of calls: the last one
/// that no reply of the transaction has followed.
pub open spec fn asked(calls: Seq<Call>, x: u32) -> Option<Pending>
    decreases calls.len(),
{
    if calls.len() == 0 {
        None
    } else {
        match calls.last() {
            Call::Request { gi, xid, now_ms, .. } if xid == Some(x) => Some(
                Pending { at_ms: now_ms, gi },
            ),
            Call::Reply { xid, .. } if xid == Some(x) => None,
            _ => asked(calls.drop_last(), x),
        }
    }
}

/// The request that a reply answers, after a run of calls: the one that waits,
/// when the reply comes within half a minute of it.
pub open spec fn answered_by(calls: Seq<Call>, xid: Option<u32>, now_ms: u64) -> Option<Pending> {
    match xid {
        Some(x) => match asked(calls, x) {
            Some(p) => if now_ms < p.at_ms + 30_000 {
                Some(p)
            } else {
                None
            },
            None => None,
        },
        None => None,
    }
}

/// The interface that a reply is credited to, after a run of calls: the one
/// whose request it answers, and its own where it answers none that came
/// through a relay.
pub open spec fn credited_to(
    calls: Seq<Call>,
    gi: Option<Ipv4Addr>,
    xid: Option<u32>,
    now_ms: u64,
) -> Option<Ipv4Addr> {
    match answered_by(calls, xid, now_ms) {
        Some(p) => if p.gi is Some {
            p.gi
        } else {
            gi
        },
        None => gi,
    }
}

/// How many milliseconds each answer took that is credited to an interface, of
/// a run of calls.
pub open spec fn answer_times(calls: Seq<Call>, gi: Option<Ipv4Addr>) -> Seq<nat>
    decreases calls.len(),
{
    if calls.len() == 0 {
        Seq::empty()
    } else {
        let less = calls.drop_last();
        let earlier = answer_times(less, gi);
        match calls.last() {
            Call::Reply { gi: g, xid, now_ms, .. } => match answered_by(less, xid, now_ms) {
                Some(p) => if credited_to(less, g, xid, now_ms) == gi {
                    earlier.push((now_ms - p.at_ms) as nat)
                } else {
                    earlier
                },
                None => earlier,
            },
            _ => earlier,
        }
    }
}

/// When the replies came that are credited to an interface, of a run of calls.
pub open spec fn reply_times(calls: Seq<Call>, gi: Option<Ipv4Addr>) -> Seq<u64>
    decreases calls.len(),
{
    if calls.len() == 0 {
        Seq::empty()
    } else {
        let less = calls.drop_last();
        let earlier = reply_times(less, gi);
        match calls.last() {
            Call::Reply { gi: g, xid, now, now_ms } => if credited_to(less, g, xid, now_ms) == gi {
                earlier.push(now)
            } else {
                earlier
            },
            _ => earlier,
        }
    }
}

/// When the first packet of an interface came, request or reply, of a run of
/// calls.
pub open spec fn first_packet(calls: Seq<Call>, gi: Option<Ipv4Addr>) -> Option<u64>
    decreases calls.len(),
{
    if calls.len() == 0 {
        None
    } else {
        let less = calls.drop_last();
        let earlier = first_packet(less, gi);
        if earlier is Some {
            earlier
        } else {
            match calls.last() {
                Call::Request { gi: g, now, .. } if g == gi => Some(now),
                Call::Reply { gi: g, xid, now, now_ms } if credited_to(less, g, xid, now_ms)
                    == gi => Some(now),
                _ => None,
            }
        }
    }
}

/// How many TFTP read requests a run of calls holds.
pub open spec fn reads_in(calls: Seq<Call>) -> nat
    decreases calls.len(),
{
    if calls.len() == 0 {
        0
    } else {
        reads_in(calls.drop_last()) + (if calls.last() is TftpRequest {
            1nat
        } else {
            0nat
        })
    }
}

/// How many TFTP sends a run of calls holds.
pub open spec fn sends_in(calls: Seq<Call>) -> nat
    decreases calls.len(),
{
    if calls.len() == 0 {
        0
    } else {
        sends_in(calls.drop_last()) + (if calls.last() is TftpSend {
            1nat
        } else {
            0nat
        })
    }
}

/// A sum.
pub open spec fn sum_of(s: Seq<nat>) -> nat
    decreases s.len(),
{
    if s.len() == 0 {
        0
    } else {
        sum_of(s.drop_last()) + s.last()
    }
}

/// When a call came, in milliseconds, where that is known.
pub open spec fn moment_of(call: Call) -> Option<u64> {
    match call {
        Call::Request { now_ms, .. } => Some(now_ms),
        Call::Reply { now_ms, .. } => Some(now_ms),
        _ => None,
    }
}

/// Whether no call came before an earlier one.
pub open spec fn in_time(calls: Seq<Call>) -> bool {
    forall|i: int, j: int|
        0 <= i < j < calls.len() && moment_of(#[trigger] calls[i]) is Some && moment_of(
            #[trigger] calls[j],
        ) is Some ==> moment_of(calls[i])->0 <= moment_of(calls[j])->0
}

/// Whether the calls were made on relays that had seen nothing, in order of
/// time, and with room for every request that is to wait.
pub open spec fn ran_from_nothing(states: Seq<Relays>, calls: Seq<Call>) -> bool {
    &&& ran(states, calls)
    &&& in_time(calls)
    &&& states[0].rows() == Map::<u32, Relay>::empty()
    &&& states[0].direct() == fresh_row(0)
    &&& states[0].table() == Map::<u32, Pending>::empty()
    &&& forall|i: int|
        0 <= i < calls.len() ==> (#[trigger] states[i]).well_formed() && states[i].table().len()
            < 50_000
}

proof fn lemma_from_nothing_less(states: Seq<Relays>, calls: Seq<Call>)
    requires
        ran_from_nothing(states, calls),
        calls.len() > 0,
    ensures
        ran_from_nothing(states.drop_last(), calls.drop_last()),
        called(states.drop_last().last(), states.last(), calls.last()),
        states.drop_last().last().well_formed(),
        states.drop_last().last().table().len() < 50_000,
{
    lemma_ran_less(states, calls);
    let (less, fewer) = (states.drop_last(), calls.drop_last());
    assert forall|i: int| 0 <= i < fewer.len() implies (#[trigger] less[i]).well_formed()
        && less[i].table().len() < 50_000 by {
        assert(less[i] == states[i]);
    }
    assert(states[calls.len() - 1].well_formed());
    assert forall|i: int, j: int|
        0 <= i < j < fewer.len() && moment_of(#[trigger] fewer[i]) is Some && moment_of(
            #[trigger] fewer[j],
        ) is Some implies moment_of(fewer[i])->0 <= moment_of(fewer[j])->0 by {
        assert(fewer[i] == calls[i] && fewer[j] == calls[j]);
    }
    assert(states[calls.len() as int] == states.last());
}

/// What waits in the table is what was asked and not answered since; and
/// whatever was, waits there for half a minute.
pub proof fn law_what_waits_is_what_was_asked(
    states: Seq<Relays>,
    calls: Seq<Call>,
    x: u32,
    t: u64,
)
    requires
        ran_from_nothing(states, calls),
        forall|i: int|
            0 <= i < calls.len() && moment_of(#[trigger] calls[i]) is Some ==> moment_of(
                calls[i],
            )->0 <= t,
    ensures
        states.last().table().contains_key(x) ==> asked(calls, x) == Some(states.last().table()[x]),
        asked(calls, x) matches Some(p) ==> p.at_ms <= t && (t < p.at_ms + 30_000
            ==> states.last().table().contains_key(x) && states.last().table()[x] == p),
    decreases calls.len(),
{
    if calls.len() > 0 {
        lemma_from_nothing_less(states, calls);
        let (less, fewer) = (states.drop_last(), calls.drop_last());
        assert forall|i: int| 0 <= i < fewer.len() && moment_of(#[trigger] fewer[i]) is Some implies
            moment_of(fewer[i])->0 <= t by {
            assert(fewer[i] == calls[i]);
        }
        law_what_waits_is_what_was_asked(less, fewer, x, t);
        assert(calls[calls.len() - 1] == calls.last());
        let before = less.last();
        if let Call::Request { gi, xid, now, now_ms } = calls.last() {
            assert(moment_of(calls[calls.len() - 1])->0 <= t);
            if let Some(y) = xid {
                let swept = after_sweep(before.table(), before.swept(), now_ms);
                assert(swept.dom().subset_of(before.table().dom()));
                vstd::set_lib::lemma_len_subset(swept.dom(), before.table().dom());
            }
        }
    }
}

proof fn lemma_reply_is_matched(
    states: Seq<Relays>,
    calls: Seq<Call>,
    gi: Option<Ipv4Addr>,
    xid: Option<u32>,
    now_ms: u64,
)
    requires
        ran_from_nothing(states, calls),
        forall|i: int|
            0 <= i < calls.len() && moment_of(#[trigger] calls[i]) is Some ==> moment_of(
                calls[i],
            )->0 <= now_ms,
    ensures
        request_of(states.last().table(), xid, now_ms) == answered_by(calls, xid, now_ms),
        owner_of(states.last().table(), gi, xid, now_ms) == credited_to(calls, gi, xid, now_ms),
        answered_by(calls, xid, now_ms) matches Some(p) ==> p.at_ms <= now_ms && waited(
            states.last().table(),
            xid,
            now_ms,
        ) == Some((now_ms - p.at_ms) as u64),
        answered_by(calls, xid, now_ms) is None ==> waited(states.last().table(), xid, now_ms)
            is None,
{
    if let Some(x) = xid {
        law_what_waits_is_what_was_asked(states, calls, x, now_ms);
    }
}

/// The row of one interface, or that of everything without a gi-address.
pub open spec fn row_of(r: Relays, gi: Option<Ipv4Addr>) -> Relay {
    match gi {
        Some(g) => r.rows()[g.bits],
        None => r.direct(),
    }
}

/// Whether a row holds what its packets make of it.
pub open spec fn holds_packets(r: Relays, calls: Seq<Call>, gi: Option<Ipv4Addr>) -> bool {
    let row = row_of(r, gi);
    let asked_at = times_of(calls, gi);
    let told_at = reply_times(calls, gi);
    let took = answer_times(calls, gi);
    let there = gi is None || r.rows().contains_key(gi->0.bits);
    &&& !there ==> asked_at.len() == 0 && told_at.len() == 0 && took.len() == 0 && first_packet(
        calls,
        gi,
    ) is None
    &&& gi is Some && there ==> asked_at.len() > 0 || told_at.len() > 0
    &&& there ==> {
        &&& row.requests == asked_at.len()
        &&& row.last_request == (if asked_at.len() == 0 {
            None
        } else {
            Some(asked_at.last())
        })
        &&& row.replies == told_at.len()
        &&& row.last_reply == (if told_at.len() == 0 {
            None
        } else {
            Some(told_at.last())
        })
        &&& row.answered == took.len()
        &&& row.answer_ms_total == sum_of(took)
        &&& forall|i: int| 0 <= i < took.len() ==> #[trigger] took[i] <= row.answer_ms_worst
        &&& row.answer_ms_worst == 0 || took.contains(row.answer_ms_worst as nat)
        &&& forall|i: int|
            0 <= i < asked_at.len() - 1 ==> asked_at[i + 1] - #[trigger] asked_at[i]
                <= row.longest_gap
        &&& row.longest_gap == 0 || exists|i: int|
            0 <= i < asked_at.len() - 1 && asked_at[i + 1] - #[trigger] asked_at[i]
                == row.longest_gap
    }
    &&& there && gi is Some ==> {
        &&& Some(row.first_seen) == first_packet(calls, gi)
        &&& row.tftp_requests == 0
        &&& row.tftp_sends == 0
    }
    &&& gi is None ==> {
        &&& row.tftp_requests == reads_in(calls)
        &&& row.tftp_sends == sends_in(calls)
    }
    &&& took.len() <= told_at.len()
    &&& asked_at.len() + told_at.len() + reads_in(calls) + sends_in(calls) <= calls.len()
}

/// A row is its packets: after any run of calls from nothing it holds how many
/// requests came through its interface and how many replies are credited to
/// it, and when the last of each came; how many of the replies answered a
/// waiting request, the sum of the times that those answers took, and the
/// longest of them; and the longest gap from one request to the next. An
/// interface has a row exactly when it has a packet, and the row begins with
/// the first.
pub proof fn law_a_row_is_its_packets(states: Seq<Relays>, calls: Seq<Call>, gi: Option<Ipv4Addr>)
    requires
        ran_from_nothing(states, calls),
        calls.len() <= u64::MAX,
        sum_of(answer_times(calls, gi)) <= u64::MAX,
    ensures
        holds_packets(states.last(), calls, gi),
    decreases calls.len(),
{
    if calls.len() == 0 {
        assert(states.last() == states[0]);
    } else {
        lemma_from_nothing_less(states, calls);
        let (less, fewer) = (states.drop_last(), calls.drop_last());
        let took = answer_times(calls, gi);
        let before_took = answer_times(fewer, gi);
        if took != before_took {
            assert(took.drop_last() =~= before_took);
        }
        law_a_row_is_its_packets(less, fewer, gi);
        match calls.last() {
            Call::Request { .. } => {
                lemma_one_more_request(less.last(), states.last(), calls, gi);
            },
            Call::Reply { gi: g, xid, now, now_ms } => {
                let last = calls[calls.len() - 1];
                assert forall|i: int|
                    0 <= i < fewer.len() && moment_of(#[trigger] fewer[i]) is Some implies moment_of(
                    fewer[i],
                )->0 <= now_ms by {
                    assert(fewer[i] == calls[i]);
                    assert(moment_of(calls[i])->0 <= moment_of(last)->0);
                }
                lemma_reply_is_matched(less, fewer, g, xid, now_ms);
                lemma_one_more_reply(less.last(), states.last(), calls, gi);
            },
            _ => {
                lemma_one_more_fetch(less.last(), states.last(), calls, gi);
            },
        }
    }
}

proof fn lemma_one_more_fetch(
    before: Relays,
    after: Relays,
    calls: Seq<Call>,
    gi: Option<Ipv4Addr>,
)
    requires
        calls.len() > 0,
        calls.len() <= u64::MAX,
        calls.last() is TftpRequest || calls.last() is TftpSend,
        called(before, after, calls.last()),
        holds_packets(before, calls.drop_last(), gi),
    ensures
        holds_packets(after, calls, gi),
{
    let fewer = calls.drop_last();
    assert(times_of(calls, gi) == times_of(fewer, gi));
    assert(reply_times(calls, gi) == reply_times(fewer, gi));
    assert(answer_times(calls, gi) == answer_times(fewer, gi));
    assert(first_packet(calls, gi) == first_packet(fewer, gi));
}

proof fn lemma_one_more_request(
    before: Relays,
    after: Relays,
    calls: Seq<Call>,
    gi: Option<Ipv4Addr>,
)
    requires
        calls.len() > 0,
        calls.len() <= u64::MAX,
        calls.last() is Request,
        called(before, after, calls.last()),
        holds_packets(before, calls.drop_last(), gi),
    ensures
        holds_packets(after, calls, gi),
{
    let fewer = calls.drop_last();
    let times = times_of(fewer, gi);
    if let Call::Request { gi: g, xid, now, now_ms } = calls.last() {
        if g == gi {
            assert(times_of(calls, gi) =~= times.push(now));
            lemma_gaps_grow(times, now, before.row(gi, now), row_of(after, gi));
        }
    }
}

proof fn lemma_one_more_reply(
    before: Relays,
    after: Relays,
    calls: Seq<Call>,
    gi: Option<Ipv4Addr>,
)
    requires
        calls.len() > 0,
        calls.len() <= u64::MAX,
        sum_of(answer_times(calls, gi)) <= u64::MAX,
        called(before, after, calls.last()),
        holds_packets(before, calls.drop_last(), gi),
        calls.last() matches Call::Reply { gi: g, xid, now, now_ms } && {
            let less = calls.drop_last();
            &&& owner_of(before.table(), g, xid, now_ms) == credited_to(less, g, xid, now_ms)
            &&& answered_by(less, xid, now_ms) matches Some(p) ==> p.at_ms <= now_ms && waited(
                before.table(),
                xid,
                now_ms,
            ) == Some((now_ms - p.at_ms) as u64)
            &&& answered_by(less, xid, now_ms) is None ==> waited(before.table(), xid, now_ms)
                is None
        },
    ensures
        holds_packets(after, calls, gi),
{
    let fewer = calls.drop_last();
    let took = answer_times(calls, gi);
    let before_took = answer_times(fewer, gi);
    assert(before_took.len() == 0 ==> sum_of(before_took) == 0);
    if let Call::Reply { gi: g, xid, now, now_ms } = calls.last() {
        if credited_to(fewer, g, xid, now_ms) == gi {
            assert(reply_times(calls, gi) =~= reply_times(fewer, gi).push(now));
            let (was, row) = (before.row(gi, now), row_of(after, gi));
            assert(row == with_reply(was, now, waited(before.table(), xid, now_ms)));
            assert(was.answer_ms_total == sum_of(before_took));
            if let Some(p) = answered_by(fewer, xid, now_ms) {
                let ms = (now_ms - p.at_ms) as nat;
                assert(took =~= before_took.push(ms));
                assert(took.drop_last() =~= before_took);
                assert(took.last() == ms);
                assert(sum_of(took) == sum_of(before_took) + ms);
                assert(row.answer_ms_total == sum_of(took));
                lemma_worst_grows(before_took, ms, was, row);
            } else {
                assert(took == before_took);
            }
        } else {
            assert(took == before_took);
            assert(reply_times(calls, gi) == reply_times(fewer, gi));
        }
        assert(times_of(calls, gi) == times_of(fewer, gi));
    }
}

proof fn lemma_gaps_grow(times: Seq<u64>, now: u64, was: Relay, row: Relay)
    requires
        row == with_request(was, now),
        was.last_request == (if times.len() == 0 {
            None
        } else {
            Some(times.last())
        }),
        forall|i: int|
            0 <= i < times.len() - 1 ==> times[i + 1] - #[trigger] times[i] <= was.longest_gap,
        was.longest_gap == 0 || exists|i: int|
            0 <= i < times.len() - 1 && times[i + 1] - #[trigger] times[i] == was.longest_gap,
    ensures
        ({
            let more = times.push(now);
            &&& forall|i: int|
                0 <= i < more.len() - 1 ==> more[i + 1] - #[trigger] more[i] <= row.longest_gap
            &&& row.longest_gap == 0 || exists|i: int|
                0 <= i < more.len() - 1 && more[i + 1] - #[trigger] more[i] == row.longest_gap
        }),
{
    let more = times.push(now);
    assert forall|i: int| 0 <= i < more.len() - 1 implies more[i + 1] - #[trigger] more[i]
        <= row.longest_gap by {
        if i < times.len() - 1 {
            assert(times[i + 1] - times[i] <= was.longest_gap);
        }
    }
    if row.longest_gap != 0 {
        if row.longest_gap == was.longest_gap {
            let i = choose|i: int|
                0 <= i < times.len() - 1 && times[i + 1] - #[trigger] times[i] == was.longest_gap;
            assert(more[i + 1] - more[i] == row.longest_gap);
        } else {
            let i = times.len() - 1;
            assert(more[i + 1] - more[i] == row.longest_gap);
        }
    }
}

proof fn lemma_worst_grows(took: Seq<nat>, ms: nat, was: Relay, row: Relay)
    requires
        row.answer_ms_worst == larger(was.answer_ms_worst, ms as u64),
        ms <= u64::MAX,
        forall|i: int| 0 <= i < took.len() ==> #[trigger] took[i] <= was.answer_ms_worst,
        was.answer_ms_worst == 0 || took.contains(was.answer_ms_worst as nat),
    ensures
        ({
            let more = took.push(ms);
            &&& forall|i: int| 0 <= i < more.len() ==> #[trigger] more[i] <= row.answer_ms_worst
            &&& row.answer_ms_worst == 0 || more.contains(row.answer_ms_worst as nat)
        }),
{
    let more = took.push(ms);
    assert(more[took.len() as int] == ms);
    if row.answer_ms_worst != ms && row.answer_ms_worst != 0 {
        let i = choose|i: int| 0 <= i < took.len() && took[i] == was.answer_ms_worst as nat;
        assert(more[i] == row.answer_ms_worst as nat);
    }
}

/// One request and one reply, on relays that had seen nothing: the mean is the
/// time between the two, and so is the worst.
pub proof fn law_one_answer_is_its_own_mean(
    states: Seq<Relays>,
    gi: Option<Ipv4Addr>,
    reply_gi: Option<Ipv4Addr>,
    x: u32,
    asked_at: u64,
    asked_ms: u64,
    now: u64,
    now_ms: u64,
)
    requires
        ran_from_nothing(
            states,
            seq![
                Call::Request { gi, xid: Some(x), now: asked_at, now_ms: asked_ms },
                Call::Reply { gi: reply_gi, xid: Some(x), now, now_ms },
            ],
        ),
        asked_ms <= now_ms < asked_ms + 30_000,
    ensures
        ({
            let row = row_of(
                states.last(),
                if gi is Some {
                    gi
                } else {
                    reply_gi
                },
            );
            &&& row.answered == 1
            &&& row.answer_ms_total / row.answered == now_ms - asked_ms
            &&& row.answer_ms_worst == now_ms - asked_ms
            &&& row.replies == 1
            &&& row.last_reply == Some(now)
        }),
{
    let ask = Call::Request { gi, xid: Some(x), now: asked_at, now_ms: asked_ms };
    let tell = Call::Reply { gi: reply_gi, xid: Some(x), now, now_ms };
    let calls = seq![ask, tell];
    let owner = if gi is Some {
        gi
    } else {
        reply_gi
    };
    let one = seq![ask];
    assert(calls.drop_last() =~= one);
    assert(one.drop_last() =~= Seq::<Call>::empty());
    assert(asked(one, x) == Some(Pending { at_ms: asked_ms, gi }));
    assert(answer_times(one, owner) == answer_times(Seq::<Call>::empty(), owner));
    assert(answer_times(one, owner) =~= Seq::<nat>::empty());
    assert(answer_times(calls, owner) =~= seq![(now_ms - asked_ms) as nat]);
    assert(answer_times(calls, owner).drop_last() =~= Seq::<nat>::empty());
    assert(sum_of(answer_times(calls, owner).drop_last()) == 0);
    assert(sum_of(answer_times(calls, owner)) == now_ms - asked_ms);
    assert(reply_times(one, owner) == reply_times(Seq::<Call>::empty(), owner));
    assert(reply_times(calls, owner) =~= seq![now]);
    law_a_row_is_its_packets(states, calls, owner);
    let took = answer_times(calls, owner);
    assert(took[0] == now_ms - asked_ms);
    let row = row_of(states.last(), owner);
    assert(row.answer_ms_total / 1 == row.answer_ms_total);
}

/// Every interface with a row is listed once, in the order of the addresses,
/// with its own row and nothing else.
pub proof fn law_every_row_is_listed_once(
    out: Seq<(Ipv4Addr, &Relay)>,
    rows: Map<u32, Relay>,
    g: u32,
)
    requires
        lists_rows(out, rows),
    ensures
        rows.contains_key(g) <==> exists|i: int|
            0 <= i < out.len() && (#[trigger] out[i]).0.bits == g,
        forall|i: int|
            0 <= i < out.len() && (#[trigger] out[i]).0.bits == g ==> *out[i].1 == rows[g],
        forall|i: int, j: int|
            0 <= i < j < out.len() ==> (#[trigger] out[i]).0.bits < (#[trigger] out[j]).0.bits,
{
}

/// Time runs forwards: what has passed since a moment is the difference, and
/// nothing where the moment is yet to come.
pub proof fn law_since_is_the_difference(now: u64, moment: u64)
    ensures
        now >= moment ==> since(now, moment) == now - moment,
        now <= moment ==> since(now, moment) == 0,
{
}

/// A request waits unless fifty thousand do already, a retry in place of the
/// attempt before it; and nothing else of the table changes but what half a
/// minute has passed over, at the most once a second.
pub proof fn law_a_request_waits(
    before: Relays,
    after: Relays,
    gi: Option<Ipv4Addr>,
    x: u32,
    now: u64,
    now_ms: u64,
    y: u32,
)
    requires
        before.well_formed(),
        requested(before, after, gi, Some(x), now, now_ms),
    ensures
        before.table().len() < 50_000 ==> after.table().contains_key(x) && after.table()[x] == (
        Pending { at_ms: now_ms, gi }),
        y != x && after.table().contains_key(y) ==> before.table().contains_key(y)
            && after.table()[y] == before.table()[y],
        y != x && before.table().contains_key(y) && now_ms < before.table()[y].at_ms + 30_000
            ==> after.table().contains_key(y),
        y != x && before.table().contains_key(y) && now_ms >= before.table()[y].at_ms + 30_000
            && now_ms >= before.swept() + 1_000 ==> !after.table().contains_key(y),
        y != x && before.table().contains_key(y) && now_ms < before.swept() + 1_000
            ==> after.table().contains_key(y),
        after.table().len() <= 50_000,
{
    let swept = after_sweep(before.table(), before.swept(), now_ms);
    assert(swept.dom().subset_of(before.table().dom()));
    vstd::set_lib::lemma_len_subset(swept.dom(), before.table().dom());
}

/// A reply takes its request out of the table and leaves the others; a request
/// without a transaction, and TFTP, leave them all.
pub proof fn law_a_reply_is_waited_for_no_more(
    before: Relays,
    after: Relays,
    gi: Option<Ipv4Addr>,
    xid: Option<u32>,
    now: u64,
    now_ms: u64,
    y: u32,
)
    requires
        replied(before, after, gi, xid, now, now_ms),
    ensures
        after.table().contains_key(y) <==> before.table().contains_key(y) && xid != Some(y),
        after.table().contains_key(y) ==> after.table()[y] == before.table()[y],
{
}

/// There is room for a request unless its row has counted as many as it can, and
/// for a reply unless the row that it belongs to has, or cannot hold the sum of
/// the answer times with this one.
pub proof fn law_room_runs_out_at_the_largest_number(
    r: Relays,
    gi: Option<Ipv4Addr>,
    xid: Option<u32>,
    now_ms: u64,
)
    ensures
        ({
            let kept = gi is None || r.rows().contains_key(gi->0.bits);
            r.room_for_request(gi) <==> !kept || row_of(r, gi).requests + 1
                <= 18_446_744_073_709_551_615
        }),
        ({
            let p = r.table()[xid->0];
            let waits = xid is Some && r.table().contains_key(xid->0) && now_ms < p.at_ms + 30_000;
            let whose = if waits && p.gi is Some {
                p.gi
            } else {
                gi
            };
            let kept = whose is None || r.rows().contains_key(whose->0.bits);
            let took = if waits && now_ms >= p.at_ms {
                now_ms - p.at_ms
            } else {
                0
            };
            let told = if kept {
                row_of(r, whose).replies as int
            } else {
                0
            };
            let total = if kept {
                row_of(r, whose).answer_ms_total as int
            } else {
                0
            };
            r.room_for_reply(gi, xid, now_ms) <==> told + 1 <= 18_446_744_073_709_551_615 && total
                + took <= 18_446_744_073_709_551_615
        }),
{
}

/// A row's packets are all four of its counts, so one packet is one more.
pub proof fn law_a_row_counts_every_packet(r: Relay, more: Relay)
    requires
        more.requests + more.replies + more.tftp_requests + more.tftp_sends == 1 + r.requests
            + r.replies + r.tftp_requests + r.tftp_sends,
    ensures
        more.packets() == r.packets() + 1,
        r.packets() == 0 <==> r.requests == 0 && r.replies == 0 && r.tftp_requests == 0
            && r.tftp_sends == 0,
        r.replies == 0 && r.tftp_requests == 0 && r.tftp_sends == 0 ==> r.packets() == r.requests,
{
}

/// What comes without a gi-address is first seen when its first packet comes,
/// be it TFTP or not, and that moment stays.
pub proof fn law_the_first_packet_without_a_relay_stays_the_first(
    before: Relays,
    after: Relays,
    call: Call,
)
    requires
        called(before, after, call),
    ensures
        before.direct().first_seen != 0 ==> after.direct().first_seen == before.direct().first_seen,
        before.direct().first_seen == 0 ==> after.direct().first_seen == (match call {
            Call::TftpRequest { now } => now,
            Call::TftpSend { now } => now,
            Call::Request { gi, now, .. } => if gi is None {
                now
            } else {
                0
            },
            Call::Reply { gi, xid, now, now_ms } => if owner_of(before.table(), gi, xid, now_ms)
                is None {
                now
            } else {
                0
            },
        }),
{
}

// What each operation gives its caller.

/// The mean is the sum of the answer times over their number, rounded down, and
/// there is none where nothing was answered.
pub proof fn law_the_mean_is_the_sum_over_the_number(r: Relay, mean: Option<u64>)
    requires
        call_ensures(Relay::answer_ms_mean, (&r,), mean),
    ensures
        mean is None <==> r.answered == 0,
        mean matches Some(n) ==> n * r.answered <= r.answer_ms_total < (n + 1) * r.answered,
{
    if r.answered > 0 {
        vstd::arithmetic::div_mod::lemma_fundamental_div_mod(
            r.answer_ms_total as int,
            r.answered as int,
        );
        let n = mean->0 as int;
        let d = r.answered as int;
        assert(n * d == d * n) by (nonlinear_arith);
        assert((n + 1) * d == d * n + d) by (nonlinear_arith);
    }
}

/// One request and its reply within half a minute, with nothing before them:
/// the mean that the row reports is the time between them.
pub proof fn law_one_answer_is_reported_as_it_took(
    r0: Relays,
    r1: Relays,
    r2: Relays,
    gi: Ipv4Addr,
    answered_to: Option<Ipv4Addr>,
    x: u32,
    at: u64,
    asked_ms: u64,
    then: u64,
    now_ms: u64,
    row: Relay,
    mean: Option<u64>,
)
    requires
        r0.well_formed(),
        r0.rows() == Map::<u32, Relay>::empty(),
        r0.direct() == fresh_row(0),
        r0.table() == Map::<u32, Pending>::empty(),
        called(r0, r1, Call::Request { gi: Some(gi), xid: Some(x), now: at, now_ms: asked_ms }),
        called(r1, r2, Call::Reply { gi: answered_to, xid: Some(x), now: then, now_ms }),
        asked_ms <= now_ms < asked_ms + 30_000,
        row == r2.rows()[gi.bits],
        call_ensures(Relay::answer_ms_mean, (&row,), mean),
    ensures
        r2.rows().contains_key(gi.bits),
        row.requests == 1,
        row.replies == 1,
        row.answered == 1,
        mean == Some((now_ms - asked_ms) as u64),
{
    let empty = Map::<u32, Pending>::empty();
    assert(after_sweep(empty, r0.swept(), asked_ms) =~= empty);
    assert(empty.len() == 0);
    assert(r1.table()[x] == (Pending { at_ms: asked_ms, gi: Some(gi) }));
    assert(row.answer_ms_total == now_ms - asked_ms);
    assert(row.answer_ms_total / 1 == row.answer_ms_total) by (nonlinear_arith);
}

/// An interface has been silent since its last request, and one that never asked
/// has not been silent.
pub proof fn law_silence_runs_from_the_last_request(r: Relay, now: u64, idle: Option<u64>)
    requires
        call_ensures(Relay::idle_for, (&r, now), idle),
    ensures
        idle is None <==> r.last_request is None,
        idle is Some && now >= r.last_request->0 ==> idle->0 + r.last_request->0 == now,
        idle is Some && now < r.last_request->0 ==> idle->0 == 0,
{
}

/// What waits is what has been asked and neither answered nor given up.
pub proof fn law_waiting_counts_what_waits(r: Relays, n: usize, u: &Relay)
    requires
        call_ensures(Relays::waiting, (&r,), n),
        call_ensures(Relays::unrelayed, (&r,), u),
    ensures
        n == r.table().dom().len(),
        *u == r.direct(),
{
}

} // verus!
