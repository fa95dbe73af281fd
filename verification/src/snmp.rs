//! An `SNMPv2c` trap as one datagram.
//!
//! BER, built by hand: a trap is a small and completely specified structure,
//! RFC 3416 section 4.2.6. Two varbinds are mandatory and come first, in this
//! order, or a receiver rejects the whole thing: `sysUpTime.0`, in hundredths
//! of a second, and `snmpTrapOID.0`, which names the trap.

use vstd::prelude::*;

verus! {

/// One thing a trap says.
#[derive(Clone, Debug)]
pub enum Value {
    Str(String),
    Count(u64),
    Oid(Vec<u64>),
    Ticks(u64),
}

/// The trap to send.
#[derive(Clone, Debug)]
pub struct Trap {
    /// Hundredths of a second this program has been running.
    pub uptime_ticks: u64,
    /// Which trap: the enterprise arc plus one number.
    pub which: u64,
    /// Everything after the two mandatory varbinds.
    pub bindings: Vec<(Vec<u64>, Value)>,
}

// Numbers as bytes.

/// The number that a run of bytes writes, most significant first.
pub open spec fn be(s: Seq<u8>) -> nat
    decreases s.len(),
{
    if s.len() == 0 {
        0
    } else {
        be(s.drop_last()) * 256 + s.last() as nat
    }
}

/// The fewest bytes that write a number, most significant first.
pub open spec fn be_bytes(n: nat) -> Seq<u8>
    decreases n,
{
    if n < 256 {
        seq![n as u8]
    } else {
        be_bytes(n / 256).push((n % 256) as u8)
    }
}

/// The fewest bytes that write a number in two's complement, most significant
/// first.
pub open spec fn int_bytes(v: int) -> Seq<u8>
    decreases (if v < 0 {
        -v
    } else {
        v
    }),
{
    if -128 <= v < 128 {
        seq![(v % 256) as u8]
    } else {
        int_bytes(v / 256).push((v % 256) as u8)
    }
}

/// The number that a run of bytes writes in two's complement.
pub open spec fn signed(s: Seq<u8>) -> int
    decreases s.len(),
{
    if s.len() == 0 {
        0
    } else if s.len() == 1 {
        if s[0] < 128 {
            s[0] as int
        } else {
            s[0] - 256
        }
    } else {
        signed(s.drop_last()) * 256 + s.last()
    }
}

/// A number in base 128, most significant first, with the high bit set on all
/// bytes but the last; or on all, when more is to follow.
pub open spec fn groups(n: nat, more: bool) -> Seq<u8>
    decreases n,
{
    let mark: nat = if more {
        128
    } else {
        0
    };
    if n < 128 {
        seq![(n + mark) as u8]
    } else {
        groups(n / 128, true).push((n % 128 + mark) as u8)
    }
}

// The pieces of a message.

/// A length: one byte under 128, and above that a count of bytes with the high
/// bit set, then the bytes.
pub open spec fn ber_length(n: nat) -> Seq<u8> {
    if n < 128 {
        seq![n as u8]
    } else {
        seq![(128 + be_bytes(n).len()) as u8] + be_bytes(n)
    }
}

/// A tag, a length and a body.
#[verifier::opaque]
pub open spec fn ber(tag: u8, body: Seq<u8>) -> Seq<u8> {
    seq![tag] + ber_length(body.len()) + body
}

/// The first two arcs of an object identifier, packed into one number.
pub open spec fn first_arcs(arcs: Seq<u64>) -> nat {
    ((if arcs.len() > 0 {
        arcs[0] * 40
    } else {
        0
    }) + (if arcs.len() > 1 {
        arcs[1] as int
    } else {
        0
    })) as nat
}

/// The body of an object identifier: the first two arcs as one number, and
/// every arc after that, in base 128.
pub open spec fn oid_body(arcs: Seq<u64>) -> Seq<u8>
    decreases arcs.len(),
{
    if arcs.len() <= 2 {
        groups(first_arcs(arcs), false)
    } else {
        oid_body(arcs.drop_last()) + groups(arcs.last() as nat, false)
    }
}

/// An object identifier whose first two arcs fit one number.
pub open spec fn arcs_fit(arcs: Seq<u64>) -> bool {
    first_arcs(arcs) <= u64::MAX
}

/// A count as a counter holds it: 32 bits, and no more than they can say.
pub open spec fn capped(v: u64) -> int {
    if v <= u32::MAX {
        v as int
    } else {
        u32::MAX as int
    }
}

impl Value {
    /// Whether the value can be written.
    pub open spec fn fits(&self) -> bool {
        match self {
            Value::Oid(arcs) => arcs_fit(arcs@),
            _ => true,
        }
    }

    /// The value in BER: an octet string, a Counter32, an object identifier,
    /// or TimeTicks.
    pub open spec fn coded(&self) -> Seq<u8> {
        match self {
            Value::Str(s) => ber(0x04, vstd::utf8::encode_utf8(s@)),
            Value::Count(n) => ber(0x41, int_bytes(capped(*n))),
            Value::Oid(arcs) => ber(0x06, oid_body(arcs@)),
            Value::Ticks(n) => ber(0x43, int_bytes(capped(*n))),
        }
    }
}

/// One varbind: a sequence of an object identifier and its value in BER.
pub open spec fn coded_varbind(name: Seq<u64>, value: Seq<u8>) -> Seq<u8> {
    ber(0x30, ber(0x06, oid_body(name)) + value)
}

/// Several varbinds, one after another.
pub open spec fn coded_bindings(bindings: Seq<(Vec<u64>, Value)>) -> Seq<u8>
    decreases bindings.len(),
{
    if bindings.len() == 0 {
        Seq::empty()
    } else {
        coded_bindings(bindings.drop_last()) + coded_varbind(
            bindings.last().0@,
            bindings.last().1.coded(),
        )
    }
}

/// The private enterprise arc that the traps live under.
pub open spec fn enterprise() -> Seq<u64> {
    seq![1, 3, 6, 1, 4, 1, 99_999]
}

/// `sysUpTime.0`.
pub open spec fn sys_uptime() -> Seq<u64> {
    seq![1, 3, 6, 1, 2, 1, 1, 3, 0]
}

/// `snmpTrapOID.0`.
pub open spec fn snmp_trap_oid() -> Seq<u64> {
    seq![1, 3, 6, 1, 6, 3, 1, 1, 4, 1, 0]
}

impl Trap {
    /// Whether every name and value can be written.
    pub open spec fn fits(&self) -> bool {
        forall|i: int|
            0 <= i < self.bindings@.len() ==> arcs_fit((#[trigger] self.bindings@[i]).0@)
                && self.bindings@[i].1.fits()
    }

    /// The object identifier that names the trap.
    pub open spec fn name(&self) -> Seq<u64> {
        enterprise().push(self.which)
    }

    /// Every varbind: the two mandatory ones, and then the rest.
    pub open spec fn varbinds(&self) -> Seq<u8> {
        coded_varbind(sys_uptime(), ber(0x43, int_bytes(capped(self.uptime_ticks))))
            + coded_varbind(snmp_trap_oid(), ber(0x06, oid_body(self.name()))) + coded_bindings(
            self.bindings@,
        )
    }

    /// The PDU's body: a request id out of the uptime, two zeroes, and the
    /// varbinds.
    pub open spec fn pdu(&self) -> Seq<u8> {
        ber(0x02, int_bytes((self.uptime_ticks % 0x8000_0000) as int)) + ber(0x02, int_bytes(0))
            + ber(0x02, int_bytes(0)) + ber(0x30, self.varbinds())
    }

    /// The message: version 2c, the community, and the PDU.
    pub open spec fn message(&self, community: Seq<char>) -> Seq<u8> {
        ber(0x02, int_bytes(1)) + ber(0x04, vstd::utf8::encode_utf8(community)) + ber(
            0xA7,
            self.pdu(),
        )
    }
}

// Writing them.

fn push_all(out: &mut Vec<u8>, more: &[u8])
    ensures
        final(out)@ == old(out)@ + more@,
{
    out.extend_from_slice(more);
    assert(out@ =~= old(out)@ + more@);
}

fn push_be(out: &mut Vec<u8>, n: u64)
    ensures
        final(out)@ == old(out)@ + be_bytes(n as nat),
    decreases n,
{
    if n >= 256 {
        push_be(out, n / 256);
    }
    out.push((n % 256) as u8);
    assert(out@ =~= old(out)@ + be_bytes(n as nat));
}

/// BER length: short form under 128, long form above.
pub fn length(n: usize) -> (out: Vec<u8>)
    ensures
        out@ == ber_length(n as nat),
{
    let mut out: Vec<u8> = Vec::new();
    if n < 0x80 {
        out.push(n as u8);
        assert(out@ =~= ber_length(n as nat));
        return out;
    }
    let mut bytes: Vec<u8> = Vec::new();
    push_be(&mut bytes, n as u64);
    assert(bytes@ =~= be_bytes(n as nat));
    proof {
        lemma_pow256_8();
        lemma_be_bytes_short(n as nat, 8);
    }
    out.push(0x80 + bytes.len() as u8);
    push_all(&mut out, bytes.as_slice());
    assert(out@ =~= ber_length(n as nat));
    out
}

/// A tag, a length and a body.
pub fn tlv(tag: u8, body: &[u8]) -> (out: Vec<u8>)
    ensures
        out@ == ber(tag, body@),
{
    reveal(ber);
    let mut out: Vec<u8> = Vec::new();
    out.push(tag);
    let len = length(body.len());
    push_all(&mut out, len.as_slice());
    push_all(&mut out, body);
    assert(out@ =~= ber(tag, body@));
    out
}

fn push_signed(out: &mut Vec<u8>, v: i64)
    ensures
        final(out)@ == old(out)@ + int_bytes(v as int),
    decreases (if v < 0 {
        -(v as int)
    } else {
        v as int
    }),
{
    let wide: i128 = v as i128;
    // Rounded down, so that what is left is never negative.
    let high: i128 = if wide >= 0 {
        wide / 256
    } else {
        -((255 - wide) / 256)
    };
    assert(high == v as int / 256);
    let low: u8 = (wide - high * 256) as u8;
    assert(low == v as int % 256);
    if v < -128 || v > 127 {
        push_signed(out, high as i64);
    }
    out.push(low);
    assert(out@ =~= old(out)@ + int_bytes(v as int));
}

/// A signed integer, in the fewest bytes two's complement allows.
pub fn integer(v: i64) -> (out: Vec<u8>)
    ensures
        out@ == ber(0x02, int_bytes(v as int)),
{
    let mut body: Vec<u8> = Vec::new();
    push_signed(&mut body, v);
    assert(body@ =~= int_bytes(v as int));
    tlv(0x02, body.as_slice())
}

/// An unsigned 32-bit counter or gauge, which BER still encodes as a
/// non-negative integer: a value with the top bit set gets a leading zero, or
/// a receiver would read it as negative.
pub fn unsigned(tag: u8, v: u64) -> (out: Vec<u8>)
    ensures
        out@ == ber(tag, int_bytes(capped(v))),
{
    let small: i64 = if v <= 0xffff_ffff {
        v as i64
    } else {
        0xffff_ffff
    };
    let mut body: Vec<u8> = Vec::new();
    push_signed(&mut body, small);
    assert(body@ =~= int_bytes(capped(v)));
    tlv(tag, body.as_slice())
}

/// A string of bytes.
pub fn octet_string(b: &[u8]) -> (out: Vec<u8>)
    ensures
        out@ == ber(0x04, b@),
{
    tlv(0x04, b)
}

fn push_groups(out: &mut Vec<u8>, n: u64, more: bool)
    ensures
        final(out)@ == old(out)@ + groups(n as nat, more),
    decreases n,
{
    if n >= 128 {
        push_groups(out, n / 128, true);
    }
    let mark: u8 = if more {
        128
    } else {
        0
    };
    out.push((n % 128) as u8 + mark);
    assert(out@ =~= old(out)@ + groups(n as nat, more));
}

/// A number in base 128, with the high bit set on all but the last byte.
pub fn base128(v: u64) -> (out: Vec<u8>)
    ensures
        out@ == groups(v as nat, false),
{
    let mut out: Vec<u8> = Vec::new();
    push_groups(&mut out, v, false);
    assert(out@ =~= groups(v as nat, false));
    out
}

/// An object identifier.
pub fn oid(arcs: &[u64]) -> (out: Vec<u8>)
    requires
        arcs_fit(arcs@),
    ensures
        out@ == ber(0x06, oid_body(arcs@)),
{
    let a: u64 = if arcs.len() > 0 {
        arcs[0]
    } else {
        0
    };
    let b: u64 = if arcs.len() > 1 {
        arcs[1]
    } else {
        0
    };
    let mut body: Vec<u8> = Vec::new();
    push_groups(&mut body, a * 40 + b, false);
    let mut i: usize = if arcs.len() < 2 {
        arcs.len()
    } else {
        2
    };
    proof {
        let upto = arcs@.take(i as int);
        assert(first_arcs(upto) == first_arcs(arcs@));
        assert(body@ =~= oid_body(upto));
    }
    while i < arcs.len()
        invariant
            2 <= i <= arcs@.len() || i == arcs@.len(),
            body@ == oid_body(arcs@.take(i as int)),
        decreases arcs@.len() - i,
    {
        push_groups(&mut body, arcs[i], false);
        proof {
            let next = arcs@.take(i + 1);
            assert(next.drop_last() =~= arcs@.take(i as int));
            assert(next.last() == arcs@[i as int]);
        }
        i = i + 1;
    }
    assert(arcs@.take(arcs@.len() as int) =~= arcs@);
    tlv(0x06, body.as_slice())
}

/// One varbind: a sequence of an object identifier and its value.
pub fn varbind(name: &[u64], v: &Value) -> (out: Vec<u8>)
    requires
        arcs_fit(name@),
        v.fits(),
    ensures
        out@ == coded_varbind(name@, v.coded()),
{
    let mut body = oid(name);
    let value = match v {
        Value::Str(s) => octet_string(s.as_str().as_bytes()),
        Value::Count(n) => unsigned(0x41, *n),
        Value::Ticks(n) => unsigned(0x43, *n),
        Value::Oid(arcs) => oid(arcs.as_slice()),
    };
    push_all(&mut body, value.as_slice());
    tlv(0x30, body.as_slice())
}

fn push_enterprise(v: &mut Vec<u64>)
    ensures
        final(v)@ == old(v)@ + enterprise(),
{
    v.push(1);
    v.push(3);
    v.push(6);
    v.push(1);
    v.push(4);
    v.push(1);
    v.push(99_999);
    assert(v@ =~= old(v)@ + enterprise());
}

impl Trap {
    /// The OID naming this trap, which is what a receiver keys its rules on.
    pub fn oid(&self) -> (out: Vec<u64>)
        ensures
            out@ == self.name(),
    {
        let mut v: Vec<u64> = Vec::new();
        push_enterprise(&mut v);
        v.push(self.which);
        assert(v@ =~= self.name());
        v
    }

    /// An OID under this program's arc, for a varbind.
    pub fn field(n: u64) -> (out: Vec<u64>)
        ensures
            out@ == enterprise().push(1).push(n),
    {
        let mut v: Vec<u64> = Vec::new();
        push_enterprise(&mut v);
        v.push(1);
        v.push(n);
        assert(v@ =~= enterprise().push(1).push(n));
        v
    }
}

/// `sysUpTime.0`.
pub fn uptime_oid() -> (out: Vec<u64>)
    ensures
        out@ == sys_uptime(),
{
    let out: Vec<u64> = vec![1, 3, 6, 1, 2, 1, 1, 3, 0];
    assert(out@ =~= sys_uptime());
    out
}

/// `snmpTrapOID.0`.
pub fn trap_oid() -> (out: Vec<u64>)
    ensures
        out@ == snmp_trap_oid(),
{
    let out: Vec<u64> = vec![1, 3, 6, 1, 6, 3, 1, 1, 4, 1, 0];
    assert(out@ =~= snmp_trap_oid());
    out
}

/// Encodes the whole datagram.
pub fn encode(community: &str, t: &Trap) -> (out: Vec<u8>)
    requires
        t.fits(),
    ensures
        out@ == ber(0x30, t.message(community@)),
{
    let mut varbinds = varbind(uptime_oid().as_slice(), &Value::Ticks(t.uptime_ticks));
    let name = t.oid();
    let which = varbind(trap_oid().as_slice(), &Value::Oid(name));
    push_all(&mut varbinds, which.as_slice());
    let ghost opening = varbinds@;
    let mut i: usize = 0;
    while i < t.bindings.len()
        invariant
            t.fits(),
            i <= t.bindings@.len(),
            varbinds@ == opening + coded_bindings(t.bindings@.take(i as int)),
        decreases t.bindings@.len() - i,
    {
        let ghost next = t.bindings@.take(i + 1);
        assert(next.drop_last() =~= t.bindings@.take(i as int));
        assert(next.last() == t.bindings@[i as int]);
        let (name, value) = &t.bindings[i];
        let one = varbind(name.as_slice(), value);
        push_all(&mut varbinds, one.as_slice());
        assert(varbinds@ =~= opening + coded_bindings(next));
        i = i + 1;
    }
    assert(t.bindings@.take(t.bindings@.len() as int) =~= t.bindings@);
    assert(varbinds@ =~= t.varbinds());
    let list = tlv(0x30, varbinds.as_slice());

    // A trap is not answered, so the request id is only a duplicate detector.
    let mut pdu = integer((t.uptime_ticks % 0x8000_0000) as i64);
    let zero = integer(0);
    push_all(&mut pdu, zero.as_slice());
    push_all(&mut pdu, zero.as_slice());
    push_all(&mut pdu, list.as_slice());
    // Context-specific, constructed, 7: SNMPv2-Trap-PDU.
    let pdu = tlv(0xA7, pdu.as_slice());

    let mut msg = integer(1);
    let who = octet_string(community.as_bytes());
    push_all(&mut msg, who.as_slice());
    push_all(&mut msg, pdu.as_slice());
    tlv(0x30, msg.as_slice())
}

// What holds of every encoding.

/// 256 to the power of `k`.
pub open spec fn pow256(k: nat) -> nat
    decreases k,
{
    if k == 0 {
        1
    } else {
        pow256((k - 1) as nat) * 256
    }
}

proof fn lemma_be_bytes_short(n: nat, k: nat)
    requires
        1 <= k,
        n < pow256(k),
    ensures
        1 <= be_bytes(n).len() <= k,
    decreases k,
{
    if n >= 256 {
        assert(pow256(1) == 256) by {
            reveal_with_fuel(pow256, 2);
        }
        assert(k >= 2);
        assert(n / 256 < pow256((k - 1) as nat));
        lemma_be_bytes_short(n / 256, (k - 1) as nat);
    }
}

proof fn lemma_pow256_8()
    ensures
        pow256(8) == 0x1_0000_0000_0000_0000,
{
    reveal_with_fuel(pow256, 9);
}

/// The fewest bytes of a number read back as that number, and do not start
/// with a zero unless they are one.
pub proof fn law_number_bytes_read_back(n: nat)
    ensures
        be(be_bytes(n)) == n,
        n > 0 ==> be_bytes(n)[0] != 0,
        be_bytes(n).len() >= 1,
    decreases n,
{
    if n < 256 {
        assert(be_bytes(n).drop_last() =~= Seq::<u8>::empty());
        assert(be(Seq::<u8>::empty()) == 0);
    } else {
        law_number_bytes_read_back(n / 256);
        assert(be_bytes(n).drop_last() =~= be_bytes(n / 256));
    }
}

/// An integer keeps its value and its sign, in the fewest bytes that do: the
/// first nine bits are never all the same.
pub proof fn law_integer_bytes_read_back(v: int)
    ensures
        signed(int_bytes(v)) == v,
        int_bytes(v).len() >= 1,
        int_bytes(v).len() > 1 ==> {
            let (first, second) = (int_bytes(v)[0], int_bytes(v)[1]);
            !(first == 0 && second < 128) && !(first == 255 && second >= 128)
        },
    decreases (if v < 0 {
        -v
    } else {
        v
    }),
{
    if -128 <= v < 128 {
    } else {
        let high = v / 256;
        law_integer_bytes_read_back(high);
        assert(int_bytes(v).drop_last() =~= int_bytes(high));
        if int_bytes(high).len() == 1 {
            assert(int_bytes(v)[0] == int_bytes(high)[0]);
            assert(-128 <= high < 128) by {
                if !(-128 <= high < 128) {
                    law_integer_bytes_read_back(high / 256);
                    assert(int_bytes(high).len() > 1);
                }
            }
        } else {
            assert(int_bytes(v)[0] == int_bytes(high)[0]);
            assert(int_bytes(v)[1] == int_bytes(high)[1]);
        }
    }
}

/// A counter is never read as negative: its first byte has no sign bit.
pub proof fn law_a_counter_is_never_negative(v: int)
    requires
        v >= 0,
    ensures
        int_bytes(v)[0] < 128,
        int_bytes(v).len() >= 1,
    decreases v,
{
    if v >= 128 {
        law_a_counter_is_never_negative(v / 256);
    }
}

/// One tag, length and body read off the front of `b`, and what is left.
#[verifier::opaque]
pub open spec fn read_tlv(b: Seq<u8>) -> Option<(u8, Seq<u8>, Seq<u8>)> {
    if b.len() < 2 {
        None
    } else {
        let extra: int = if b[1] < 128 {
            0
        } else {
            b[1] - 128
        };
        if b.len() < 2 + extra {
            None
        } else {
            let len = if b[1] < 128 {
                b[1] as nat
            } else {
                be(b.subrange(2, 2 + extra))
            };
            let start = 2 + extra;
            if b.len() < start + len {
                None
            } else {
                Some((b[0], b.subrange(start, start + len), b.skip(start + len)))
            }
        }
    }
}

/// Whatever is written with a tag and a length is read back whole, and what
/// follows it is left untouched. The length describes the body exactly.
pub proof fn law_tlv_reads_back(tag: u8, body: Seq<u8>, rest: Seq<u8>)
    requires
        body.len() <= u64::MAX,
    ensures
        read_tlv(ber(tag, body) + rest) == Some((tag, body, rest)),
{
    reveal(ber);
    reveal(read_tlv);
    let n = body.len();
    let b = ber(tag, body) + rest;
    assert(b[0] == tag);
    if n < 128 {
        assert(b[1] == n as u8);
        assert(b.subrange(2, 2 + n as int) =~= body);
        assert(b.skip(2 + n as int) =~= rest);
    } else {
        lemma_pow256_8();
        lemma_be_bytes_short(n, 8);
        law_number_bytes_read_back(n);
        let size = be_bytes(n);
        assert(ber_length(n).len() == 1 + size.len());
        assert(b[1] == (128 + size.len()) as u8);
        assert(b.subrange(2, 2 + size.len() as int) =~= size);
        let start = 2 + size.len() as int;
        assert(b.subrange(start, start + n) =~= body);
        assert(b.skip(start + n) =~= rest);
    }
}

/// One number in base 128 read off the front of `b`, on top of the groups read
/// so far, and what is left.
pub open spec fn read_groups(b: Seq<u8>, so_far: nat) -> Option<(nat, Seq<u8>)>
    decreases b.len(),
{
    if b.len() == 0 {
        None
    } else if b[0] < 128 {
        Some((so_far * 128 + b[0] as nat, b.skip(1)))
    } else {
        read_groups(b.skip(1), (so_far * 128 + (b[0] - 128)) as nat)
    }
}

proof fn lemma_groups_read(n: nat, tail: Seq<u8>)
    ensures
        read_groups(groups(n, true) + tail, 0) == read_groups(tail, n),
    decreases n,
{
    let b = groups(n, true) + tail;
    if n < 128 {
        assert(b[0] == (n + 128) as u8);
        assert(b.skip(1) =~= tail);
    } else {
        let x = (n % 128 + 128) as u8;
        let less = seq![x] + tail;
        assert(b =~= groups(n / 128, true) + less);
        lemma_groups_read(n / 128, less);
        assert(less[0] == x);
        assert(less.skip(1) =~= tail);
        assert((n / 128) * 128 + n % 128 == n);
    }
}

/// An arc is read back whole, and what follows it is left untouched.
pub proof fn law_base128_reads_back(n: nat, rest: Seq<u8>)
    ensures
        read_groups(groups(n, false) + rest, 0) == Some((n, rest)),
{
    let b = groups(n, false) + rest;
    if n < 128 {
        assert(b[0] == n as u8);
        assert(b.skip(1) =~= rest);
    } else {
        let x = (n % 128) as u8;
        let less = seq![x] + rest;
        assert(b =~= groups(n / 128, true) + less);
        lemma_groups_read(n / 128, less);
        assert(less[0] == x);
        assert(less.skip(1) =~= rest);
        assert((n / 128) * 128 + n % 128 == n);
    }
}

/// Every number in base 128 read off `b`.
pub open spec fn read_arcs(b: Seq<u8>) -> Seq<nat>
    decreases b.len(),
{
    match read_groups(b, 0) {
        Some((n, rest)) => if rest.len() < b.len() {
            seq![n] + read_arcs(rest)
        } else {
            Seq::empty()
        },
        None => Seq::empty(),
    }
}

/// The numbers that an object identifier is written as: the first two arcs
/// packed into one, and then the rest.
pub open spec fn packed_arcs(arcs: Seq<u64>) -> Seq<nat>
    decreases arcs.len(),
{
    if arcs.len() <= 2 {
        seq![first_arcs(arcs)]
    } else {
        packed_arcs(arcs.drop_last()).push(arcs.last() as nat)
    }
}

proof fn lemma_groups_not_empty(n: nat, more: bool)
    ensures
        groups(n, more).len() >= 1,
    decreases n,
{
    if n >= 128 {
        lemma_groups_not_empty(n / 128, true);
    }
}

proof fn lemma_arcs_read(arcs: Seq<u64>, rest: Seq<u8>)
    ensures
        read_arcs(oid_body(arcs) + rest) == packed_arcs(arcs) + read_arcs(rest),
    decreases arcs.len(),
{
    if arcs.len() <= 2 {
        let n = first_arcs(arcs);
        law_base128_reads_back(n, rest);
        lemma_groups_not_empty(n, false);
        assert(read_arcs(oid_body(arcs) + rest) =~= packed_arcs(arcs) + read_arcs(rest));
    } else {
        let less = arcs.drop_last();
        let n = arcs.last() as nat;
        let tail = groups(n, false) + rest;
        assert(oid_body(arcs) + rest =~= oid_body(less) + tail);
        lemma_arcs_read(less, tail);
        law_base128_reads_back(n, rest);
        lemma_groups_not_empty(n, false);
        assert(read_arcs(tail) =~= seq![n] + read_arcs(rest));
        assert(packed_arcs(less) + (seq![n] + read_arcs(rest)) =~= packed_arcs(arcs) + read_arcs(
            rest,
        ));
    }
}

/// An object identifier reads back as the arcs it was written from.
pub proof fn law_oid_reads_back(arcs: Seq<u64>)
    ensures
        read_arcs(oid_body(arcs)) == packed_arcs(arcs),
{
    lemma_arcs_read(arcs, Seq::empty());
    assert(oid_body(arcs) + Seq::<u8>::empty() =~= oid_body(arcs));
    assert(read_arcs(Seq::<u8>::empty()) =~= Seq::<nat>::empty());
    assert(packed_arcs(arcs) + Seq::<nat>::empty() =~= packed_arcs(arcs));
}

/// What is written is longer than its body.
proof fn lemma_ber_is_longer(tag: u8, body: Seq<u8>)
    ensures
        body.len() < ber(tag, body).len(),
{
    reveal(ber);
}

/// The whole datagram, walked as a receiver would: a sequence that ends where
/// the datagram ends, version 2c, the community as it was given, and an
/// SNMPv2-Trap PDU that ends there too.
pub proof fn law_a_trap_reads_back(t: Trap, community: Seq<char>)
    requires
        ber(0x30, t.message(community)).len() <= u64::MAX,
    ensures
        ({
            let name = vstd::utf8::encode_utf8(community);
            let after_version = ber(0x04, name) + ber(0xA7, t.pdu());
            let none = Seq::<u8>::empty();
            &&& read_tlv(ber(0x30, t.message(community))) == Some(
                (0x30u8, t.message(community), none),
            )
            &&& read_tlv(t.message(community)) == Some((0x02u8, int_bytes(1), after_version))
            &&& read_tlv(after_version) == Some((0x04u8, name, ber(0xA7, t.pdu())))
            &&& read_tlv(ber(0xA7, t.pdu())) == Some((0xA7u8, t.pdu(), none))
        }),
{
    let name = vstd::utf8::encode_utf8(community);
    let none = Seq::<u8>::empty();
    let message = t.message(community);
    let pdu = t.pdu();
    let version = int_bytes(1);
    let after_version = ber(0x04, name) + ber(0xA7, pdu);
    lemma_ber_is_longer(0x30, message);
    lemma_ber_is_longer(0x02, version);
    lemma_ber_is_longer(0x04, name);
    lemma_ber_is_longer(0xA7, pdu);

    assert(ber(0x30, message) + none =~= ber(0x30, message));
    law_tlv_reads_back(0x30, message, none);
    assert(message =~= ber(0x02, version) + after_version);
    law_tlv_reads_back(0x02, version, after_version);
    law_tlv_reads_back(0x04, name, ber(0xA7, pdu));
    assert(ber(0xA7, pdu) + none =~= ber(0xA7, pdu));
    law_tlv_reads_back(0xA7, pdu, none);
}

/// The PDU, walked as a receiver would: the request id, no error, and the list
/// of varbinds, which ends where the PDU ends.
pub proof fn law_a_pdu_reads_back(t: Trap)
    requires
        t.pdu().len() <= u64::MAX,
    ensures
        ({
            let zero = ber(0x02, int_bytes(0));
            let list = ber(0x30, t.varbinds());
            &&& read_tlv(t.pdu()) == Some(
                (
                    0x02u8,
                    int_bytes((t.uptime_ticks % 0x8000_0000) as int),
                    zero + (zero + list),
                ),
            )
            &&& read_tlv(zero + (zero + list)) == Some((0x02u8, int_bytes(0), zero + list))
            &&& read_tlv(zero + list) == Some((0x02u8, int_bytes(0), list))
            &&& read_tlv(list) == Some((0x30u8, t.varbinds(), Seq::<u8>::empty()))
        }),
{
    let none = Seq::<u8>::empty();
    let id = int_bytes((t.uptime_ticks % 0x8000_0000) as int);
    let nought = int_bytes(0);
    let zero = ber(0x02, nought);
    let varbinds = t.varbinds();
    let list = ber(0x30, varbinds);
    lemma_ber_is_longer(0x02, id);
    lemma_ber_is_longer(0x02, nought);
    lemma_ber_is_longer(0x30, varbinds);

    assert(t.pdu() =~= ber(0x02, id) + (zero + (zero + list)));
    law_tlv_reads_back(0x02, id, zero + (zero + list));
    law_tlv_reads_back(0x02, nought, zero + list);
    law_tlv_reads_back(0x02, nought, list);
    assert(list + none =~= list);
    law_tlv_reads_back(0x30, varbinds, none);
}

/// The two mandatory varbinds come first and in their order: `sysUpTime.0`
/// with the uptime, then `snmpTrapOID.0` with the name of the trap. Everything
/// else follows them.
pub proof fn law_mandatory_varbinds_come_first(t: Trap)
    requires
        t.varbinds().len() <= u64::MAX,
    ensures
        ({
            let uptime = ber(0x06, oid_body(sys_uptime())) + ber(
                0x43,
                int_bytes(capped(t.uptime_ticks)),
            );
            let which = ber(0x06, oid_body(snmp_trap_oid())) + ber(0x06, oid_body(t.name()));
            let others = coded_bindings(t.bindings@);
            &&& read_tlv(t.varbinds()) == Some((0x30u8, uptime, ber(0x30, which) + others))
            &&& read_tlv(ber(0x30, which) + others) == Some((0x30u8, which, others))
        }),
{
    let uptime = ber(0x06, oid_body(sys_uptime())) + ber(0x43, int_bytes(capped(t.uptime_ticks)));
    let which = ber(0x06, oid_body(snmp_trap_oid())) + ber(0x06, oid_body(t.name()));
    let others = coded_bindings(t.bindings@);
    lemma_ber_is_longer(0x30, uptime);
    lemma_ber_is_longer(0x30, which);
    assert(t.varbinds() =~= ber(0x30, uptime) + (ber(0x30, which) + others));
    law_tlv_reads_back(0x30, uptime, ber(0x30, which) + others);
    law_tlv_reads_back(0x30, which, others);
}

proof fn lemma_bindings_from_the_front(bindings: Seq<(Vec<u64>, Value)>)
    requires
        bindings.len() > 0,
    ensures
        coded_bindings(bindings) == coded_varbind(bindings[0].0@, bindings[0].1.coded())
            + coded_bindings(bindings.skip(1)),
    decreases bindings.len(),
{
    let first = coded_varbind(bindings[0].0@, bindings[0].1.coded());
    let rest = bindings.skip(1);
    if bindings.len() == 1 {
        assert(coded_bindings(bindings.drop_last()) =~= Seq::<u8>::empty());
        assert(coded_bindings(rest) =~= Seq::<u8>::empty());
        assert(coded_bindings(bindings) =~= first + coded_bindings(rest));
    } else {
        let less = bindings.drop_last();
        lemma_bindings_from_the_front(less);
        assert(less.skip(1) =~= rest.drop_last());
        assert(rest.last() == bindings.last());
        assert(coded_bindings(bindings) =~= first + coded_bindings(rest));
    }
}

/// The bindings are read back one after another in the order they were given:
/// of each the name, and its value untouched.
pub proof fn law_bindings_read_back_in_order(bindings: Seq<(Vec<u64>, Value)>)
    requires
        bindings.len() > 0,
        coded_bindings(bindings).len() <= u64::MAX,
    ensures
        ({
            let name = bindings[0].0@;
            let value = bindings[0].1.coded();
            &&& read_tlv(coded_bindings(bindings)) == Some(
                (0x30u8, ber(0x06, oid_body(name)) + value, coded_bindings(bindings.skip(1))),
            )
            &&& read_tlv(ber(0x06, oid_body(name)) + value) == Some((0x06u8, oid_body(name), value))
            &&& read_arcs(oid_body(name)) == packed_arcs(name)
        }),
{
    let name = bindings[0].0@;
    let value = bindings[0].1.coded();
    lemma_bindings_from_the_front(bindings);
    lemma_ber_is_longer(0x30, ber(0x06, oid_body(name)) + value);
    lemma_ber_is_longer(0x06, oid_body(name));
    law_tlv_reads_back(
        0x30,
        ber(0x06, oid_body(name)) + value,
        coded_bindings(bindings.skip(1)),
    );
    law_tlv_reads_back(0x06, oid_body(name), value);
    law_oid_reads_back(name);
}

// What each piece of a trap is for.

/// A value reads back as what it is: a text as an octet string with its bytes,
/// a count as a Counter32 and an uptime as TimeTicks with the number, or the
/// most that 32 bits can say, and an object identifier with its arcs.
pub proof fn law_a_value_reads_back(v: Value, rest: Seq<u8>)
    requires
        v.coded().len() <= u64::MAX,
    ensures
        v matches Value::Str(s) ==> read_tlv(v.coded() + rest) == Some(
            (0x04u8, vstd::utf8::encode_utf8(s@), rest),
        ),
        v matches Value::Count(n) ==> read_tlv(v.coded() + rest) matches Some((tag, body, left))
            && tag == 0x41 && left == rest && body.len() > 0 && body[0] < 128 && signed(body) == (
        if n <= 0xffff_ffff {
            n as int
        } else {
            0xffff_ffff
        }),
        v matches Value::Ticks(n) ==> read_tlv(v.coded() + rest) matches Some((tag, body, left))
            && tag == 0x43 && left == rest && body.len() > 0 && body[0] < 128 && signed(body) == (
        if n <= 0xffff_ffff {
            n as int
        } else {
            0xffff_ffff
        }),
        v matches Value::Oid(arcs) ==> read_tlv(v.coded() + rest) == Some(
            (0x06u8, oid_body(arcs@), rest),
        ) && read_arcs(oid_body(arcs@)) == packed_arcs(arcs@),
{
    match v {
        Value::Str(s) => {
            lemma_ber_is_longer(0x04, vstd::utf8::encode_utf8(s@));
            law_tlv_reads_back(0x04, vstd::utf8::encode_utf8(s@), rest);
        },
        Value::Count(n) => {
            lemma_ber_is_longer(0x41, int_bytes(capped(n)));
            law_tlv_reads_back(0x41, int_bytes(capped(n)), rest);
            law_integer_bytes_read_back(capped(n));
            law_a_counter_is_never_negative(capped(n));
        },
        Value::Ticks(n) => {
            lemma_ber_is_longer(0x43, int_bytes(capped(n)));
            law_tlv_reads_back(0x43, int_bytes(capped(n)), rest);
            law_integer_bytes_read_back(capped(n));
            law_a_counter_is_never_negative(capped(n));
        },
        Value::Oid(arcs) => {
            lemma_ber_is_longer(0x06, oid_body(arcs@));
            law_tlv_reads_back(0x06, oid_body(arcs@), rest);
            law_oid_reads_back(arcs@);
        },
    }
}

/// The first number of an object identifier is forty times its first arc and
/// its second, and every arc after that is a number of its own.
pub proof fn law_two_arcs_make_one_number(a: u64, b: u64, more: Seq<u64>, last: u64)
    ensures
        packed_arcs(seq![a, b]) == seq![(40 * a + b) as nat],
        packed_arcs((seq![a, b] + more).push(last)) == packed_arcs(seq![a, b] + more).push(
            last as nat,
        ),
{
    let arcs = (seq![a, b] + more).push(last);
    assert(arcs.drop_last() =~= seq![a, b] + more);
    assert(arcs.last() == last);
}

/// The names are these: the uptime's, the trap's name, the arc that the traps
/// live under with the number of the trap behind it.
pub proof fn law_the_names_are_these(t: Trap)
    ensures
        sys_uptime() == seq![1u64, 3, 6, 1, 2, 1, 1, 3, 0],
        snmp_trap_oid() == seq![1u64, 3, 6, 1, 6, 3, 1, 1, 4, 1, 0],
        enterprise() == seq![1u64, 3, 6, 1, 4, 1, 99_999],
        t.name() == seq![1u64, 3, 6, 1, 4, 1, 99_999, t.which],
{
    assert(t.name() =~= seq![1u64, 3, 6, 1, 4, 1, 99_999, t.which]);
}

/// A length takes one byte below 128; from there on it takes the fewest bytes
/// that it needs, behind one that counts them.
pub proof fn law_a_length_takes_the_fewest_bytes(tag: u8, body: Seq<u8>)
    requires
        body.len() <= u64::MAX,
    ensures
        body.len() < 128 ==> ber(tag, body) == seq![tag, body.len() as u8] + body,
        body.len() >= 128 ==> {
            let bytes = be_bytes(body.len());
            &&& ber(tag, body) == seq![tag, (128 + bytes.len()) as u8] + bytes + body
            &&& bytes[0] != 0
            &&& be(bytes) == body.len()
            &&& bytes.len() <= 8
        },
{
    reveal(ber);
    let n = body.len();
    if n < 128 {
        assert(ber(tag, body) =~= seq![tag, n as u8] + body);
    } else {
        let bytes = be_bytes(n);
        assert(ber(tag, body) =~= seq![tag, (128 + bytes.len()) as u8] + bytes + body);
        law_number_bytes_read_back(n);
        lemma_pow256_8();
        lemma_be_bytes_short(n, 8);
        if bytes[0] == 0 {
            assert(n > 0);
        }
    }
}

/// Bytes write a number place by place: one more byte makes 256 times as much
/// and the byte.
pub proof fn law_one_more_byte_is_256_times(s: Seq<u8>, b: u8)
    ensures
        be(Seq::<u8>::empty()) == 0,
        be(s.push(b)) == 256 * be(s) + b,
        s.len() > 0 ==> signed(s.push(b)) == 256 * signed(s) + b,
        signed(seq![b]) == (if b < 128 {
            b as int
        } else {
            b - 256
        }),
{
    assert(s.push(b).drop_last() =~= s);
}

/// An arc takes the fewest bytes that it needs: the first carries something
/// unless it is the only one, and only the last is below 128.
pub proof fn law_an_arc_takes_the_fewest_bytes(n: nat)
    ensures
        ({
            let s = groups(n, false);
            &&& s.len() >= 1
            &&& s.last() < 128
            &&& forall|i: int| 0 <= i < s.len() - 1 ==> #[trigger] s[i] >= 128
            &&& s.len() > 1 ==> s[0] != 128
        }),
{
    if n >= 128 {
        lemma_marked(n / 128);
        let s = groups(n, false);
        let t = groups(n / 128, true);
        assert forall|i: int| 0 <= i < s.len() - 1 implies #[trigger] s[i] >= 128 by {
            assert(s[i] == t[i]);
        }
        assert(s[0] == t[0]);
    }
}

proof fn lemma_marked(n: nat)
    ensures
        ({
            let s = groups(n, true);
            &&& s.len() >= 1
            &&& forall|i: int| 0 <= i < s.len() ==> #[trigger] s[i] >= 128
            &&& n > 0 ==> s[0] != 128
        }),
    decreases n,
{
    if n >= 128 {
        lemma_marked(n / 128);
        let s = groups(n, true);
        let t = groups(n / 128, true);
        assert forall|i: int| 0 <= i < s.len() implies #[trigger] s[i] >= 128 by {
            if i < t.len() {
                assert(s[i] == t[i]);
            }
        }
        assert(s[0] == t[0]);
    }
}

/// The numbers of a trap read back: version one, which is 2c; a request id out
/// of the lower 31 bits of the uptime; and no error.
pub proof fn law_the_numbers_of_a_trap(t: Trap)
    ensures
        signed(int_bytes(1)) == 1,
        signed(int_bytes(0)) == 0,
        signed(int_bytes((t.uptime_ticks % 0x8000_0000) as int)) == t.uptime_ticks % 0x8000_0000,
{
    law_integer_bytes_read_back(1);
    law_integer_bytes_read_back(0);
    law_integer_bytes_read_back((t.uptime_ticks % 0x8000_0000) as int);
}

// What each operation gives its caller.

/// An integer is coded under tag 2, and its bytes give it back.
pub proof fn law_a_coded_integer_reads_back(v: i64, out: Vec<u8>)
    requires
        call_ensures(integer, (v,), out),
    ensures
        read_tlv(out@) matches Some((tag, body, rest)) && tag == 2 && signed(body) == v
            && rest.len() == 0,
{
    assert(out.len() == out@.len());
    lemma_ber_is_longer(2, int_bytes(v as int));
    law_integer_bytes_read_back(v as int);
    law_tlv_reads_back(2, int_bytes(v as int), Seq::empty());
    assert(out@ + Seq::<u8>::empty() =~= out@);
}

/// A counter is coded under its tag, as itself up to the largest number of 32
/// bits and as that number above it.
pub proof fn law_a_coded_counter_reads_back(tag: u8, v: u64, out: Vec<u8>)
    requires
        call_ensures(unsigned, (tag, v), out),
    ensures
        read_tlv(out@) matches Some((t, body, rest)) && t == tag && signed(body) == (if v
            <= 0xFFFF_FFFF {
            v as int
        } else {
            0xFFFF_FFFF
        }) && rest.len() == 0,
{
    assert(out.len() == out@.len());
    lemma_ber_is_longer(tag, int_bytes(capped(v)));
    law_integer_bytes_read_back(capped(v));
    law_tlv_reads_back(tag, int_bytes(capped(v)), Seq::empty());
    assert(out@ + Seq::<u8>::empty() =~= out@);
}

/// A string of bytes is coded under tag 4 and read back as it is.
pub proof fn law_a_coded_string_reads_back(b: &[u8], out: Vec<u8>)
    requires
        call_ensures(octet_string, (b,), out),
    ensures
        read_tlv(out@) == Some((4u8, b@, Seq::<u8>::empty())),
{
    assert(out.len() == out@.len());
    lemma_ber_is_longer(4, b@);
    law_tlv_reads_back(4, b@, Seq::empty());
    assert(out@ + Seq::<u8>::empty() =~= out@);
}

/// An object identifier is coded under tag 6, its first two arcs as one number,
/// and read back arc by arc.
pub proof fn law_a_coded_name_reads_back(arcs: &[u64], out: Vec<u8>)
    requires
        arcs@.len() >= 2,
        call_ensures(crate::snmp::oid, (arcs,), out),
    ensures
        read_tlv(out@) matches Some((tag, body, rest)) && tag == 6 && rest.len() == 0
            && read_arcs(body) == packed_arcs(arcs@),
{
    assert(out.len() == out@.len());
    lemma_ber_is_longer(6, oid_body(arcs@));
    law_tlv_reads_back(6, oid_body(arcs@), Seq::empty());
    law_oid_reads_back(arcs@);
    assert(out@ + Seq::<u8>::empty() =~= out@);
}

/// What is tagged is read back under its tag.
pub proof fn law_what_is_tagged_reads_back(tag: u8, body: &[u8], out: Vec<u8>)
    requires
        call_ensures(tlv, (tag, body), out),
    ensures
        read_tlv(out@) == Some((tag, body@, Seq::<u8>::empty())),
{
    assert(out.len() == out@.len());
    lemma_ber_is_longer(tag, body@);
    law_tlv_reads_back(tag, body@, Seq::empty());
    assert(out@ + Seq::<u8>::empty() =~= out@);
}

/// The names of a trap, of its fields and of the two bindings that come first.
pub proof fn law_names_are_given_so(
    t: Trap,
    n: u64,
    name: Vec<u64>,
    field: Vec<u64>,
    uptime: Vec<u64>,
    which: Vec<u64>,
)
    requires
        call_ensures(Trap::oid, (&t,), name),
        call_ensures(Trap::field, (n,), field),
        call_ensures(uptime_oid, (), uptime),
        call_ensures(trap_oid, (), which),
    ensures
        name@ == seq![1u64, 3, 6, 1, 4, 1, 99_999, t.which],
        field@ == seq![1u64, 3, 6, 1, 4, 1, 99_999, 1, n],
        uptime@ == seq![1u64, 3, 6, 1, 2, 1, 1, 3, 0],
        which@ == seq![1u64, 3, 6, 1, 6, 3, 1, 1, 4, 1, 0],
{
    assert(name@ =~= seq![1u64, 3, 6, 1, 4, 1, 99_999, t.which]);
    assert(field@ =~= seq![1u64, 3, 6, 1, 4, 1, 99_999, 1, n]);
}

/// A trap is sent as one sequence, in version two's form, with its community.
pub proof fn law_a_sent_trap_reads_back(community: &str, t: Trap, out: Vec<u8>)
    requires
        call_ensures(encode, (community, &t), out),
    ensures
        read_tlv(out@) matches Some((tag, body, rest)) && tag == 0x30 && rest.len() == 0 && body
            == t.message(community@),
{
    assert(out.len() == out@.len());
    lemma_ber_is_longer(0x30, t.message(community@));
    law_tlv_reads_back(0x30, t.message(community@), Seq::empty());
    assert(out@ + Seq::<u8>::empty() =~= out@);
}

} // verus!
