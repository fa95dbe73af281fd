//! Addresses, as the numbers they are on the wire.

use vstd::prelude::*;

use crate::text::push_dec;

verus! {

/// An IPv4 address, most significant byte first.
#[derive(Clone, Copy, Debug, PartialEq, Eq, PartialOrd, Ord, Hash, Structural)]
pub struct Ipv4Addr {
    pub bits: u32,
}

/// An IPv6 address, most significant byte first.
#[derive(Clone, Copy, Debug, PartialEq, Eq, PartialOrd, Ord, Hash, Structural)]
pub struct Ipv6Addr {
    pub bits: u128,
}

/// Either kind of address. Every IPv4 address sorts before every IPv6 one.
#[derive(Clone, Copy, Debug, PartialEq, Eq, PartialOrd, Ord, Hash, Structural)]
pub enum IpAddr {
    V4(Ipv4Addr),
    V6(Ipv6Addr),
}

impl Ipv4Addr {
    /// The four numbers of the dotted form, from the left.
    pub open spec fn parts(self) -> (nat, nat, nat, nat) {
        (
            (self.bits / 0x100_0000) as nat,
            (self.bits / 0x1_0000 % 0x100) as nat,
            (self.bits / 0x100 % 0x100) as nat,
            (self.bits % 0x100) as nat,
        )
    }

    /// The dotted form.
    pub open spec fn dotted(self) -> Seq<char> {
        crate::text::dec(self.parts().0) + "."@ + crate::text::dec(self.parts().1) + "."@
            + crate::text::dec(self.parts().2) + "."@ + crate::text::dec(self.parts().3)
    }

    /// The address written `a.b.c.d`.
    pub fn new(a: u8, b: u8, c: u8, d: u8) -> (r: Ipv4Addr)
        ensures
            r.parts() == (a as nat, b as nat, c as nat, d as nat),
    {
        let bits: u32 = a as u32 * 0x100_0000 + b as u32 * 0x1_0000 + c as u32 * 0x100 + d as u32;
        proof {
            let (w, x, y, z) = (a as int, b as int, c as int, d as int);
            let n = bits as int;
            vstd::arithmetic::div_mod::lemma_fundamental_div_mod_converse(n, 0x100_0000, w, x * 0x1_0000 + y * 0x100 + z);
            vstd::arithmetic::div_mod::lemma_fundamental_div_mod_converse(n, 0x1_0000, w * 0x100 + x, y * 0x100 + z);
            vstd::arithmetic::div_mod::lemma_fundamental_div_mod_converse(w * 0x100 + x, 0x100, w, x);
            vstd::arithmetic::div_mod::lemma_fundamental_div_mod_converse(n, 0x100, w * 0x1_0000 + x * 0x100 + y, z);
            vstd::arithmetic::div_mod::lemma_fundamental_div_mod_converse(
                w * 0x1_0000 + x * 0x100 + y,
                0x100,
                w * 0x100 + x,
                y,
            );
        }
        Ipv4Addr { bits }
    }

    /// Whether this is `0.0.0.0`.
    pub fn is_unspecified(&self) -> (r: bool)
        ensures
            r == (self.bits == 0),
    {
        self.bits == 0
    }

    /// Appends the dotted form.
    pub fn push_to(&self, out: &mut String)
        ensures
            final(out)@ == old(out)@ + self.dotted(),
    {
        push_dec(out, (self.bits / 0x100_0000) as u64);
        out.append(".");
        push_dec(out, (self.bits / 0x1_0000 % 0x100) as u64);
        out.append(".");
        push_dec(out, (self.bits / 0x100 % 0x100) as u64);
        out.append(".");
        push_dec(out, (self.bits % 0x100) as u64);
        assert(out@ =~= old(out)@ + self.dotted());
    }

    /// The dotted form.
    pub fn text(&self) -> (out: String)
        ensures
            out@ == self.dotted(),
    {
        let mut out = String::new();
        self.push_to(&mut out);
        assert(out@ =~= self.dotted());
        out
    }
}

/// What stands before the first point and what stands behind it, of a text
/// that starts with a number and a point.
proof fn lemma_up_to_the_point(x: nat, r: Seq<char>, y: nat, t: Seq<char>)
    requires
        crate::text::dec(x) + "."@ + r == crate::text::dec(y) + "."@ + t,
    ensures
        x == y,
        r == t,
{
    reveal_strlit(".");
    crate::ratio::lemma_dec_reads_back(x);
    crate::ratio::lemma_dec_reads_back(y);
    let (a, b) = (crate::text::dec(x), crate::text::dec(y));
    let s = a + "."@ + r;
    let u = b + "."@ + t;
    assert(s[a.len() as int] == '.');
    assert(u[b.len() as int] == '.');
    if a.len() < b.len() {
        assert(crate::ratio::is_digit(b[a.len() as int]));
    }
    if b.len() < a.len() {
        assert(crate::ratio::is_digit(a[b.len() as int]));
    }
    assert(a =~= s.take(a.len() as int));
    assert(b =~= u.take(b.len() as int));
    assert(r =~= s.skip(a.len() as int + 1));
    assert(t =~= u.skip(b.len() as int + 1));
}

proof fn lemma_regrouped(
    a: Seq<char>,
    dot: Seq<char>,
    b: Seq<char>,
    c: Seq<char>,
    d: Seq<char>,
)
    ensures
        a + dot + b + dot + c + dot + d == a + dot + (b + dot + (c + dot + d)),
{
    assert(a + dot + b + dot + c + dot + d =~= a + dot + (b + dot + (c + dot + d)));
}

/// Two addresses that are written alike are the same.
pub proof fn law_dotted_forms_tell_addresses_apart(a: Ipv4Addr, b: Ipv4Addr)
    requires
        a.dotted() == b.dotted(),
    ensures
        a == b,
{
    let (p, q) = (a.parts(), b.parts());
    let (p3, q3) = (crate::text::dec(p.3), crate::text::dec(q.3));
    let p2 = crate::text::dec(p.2) + "."@ + p3;
    let q2 = crate::text::dec(q.2) + "."@ + q3;
    let p1 = crate::text::dec(p.1) + "."@ + p2;
    let q1 = crate::text::dec(q.1) + "."@ + q2;
    lemma_regrouped(crate::text::dec(p.0), "."@, crate::text::dec(p.1), crate::text::dec(p.2), p3);
    lemma_regrouped(crate::text::dec(q.0), "."@, crate::text::dec(q.1), crate::text::dec(q.2), q3);
    lemma_up_to_the_point(p.0, p1, q.0, q1);
    lemma_up_to_the_point(p.1, p2, q.1, q2);
    lemma_up_to_the_point(p.2, p3, q.2, q3);
    crate::ratio::lemma_dec_reads_back(p.3);
    crate::ratio::lemma_dec_reads_back(q.3);
    lemma_parts_make_the_bits(a);
    lemma_parts_make_the_bits(b);
}

proof fn lemma_parts_make_the_bits(a: Ipv4Addr)
    ensures
        a.bits == a.parts().0 * 0x100_0000 + a.parts().1 * 0x1_0000 + a.parts().2 * 0x100
            + a.parts().3,
{
    let n = a.bits as int;
    vstd::arithmetic::div_mod::lemma_div_denominator(n, 0x100, 0x100);
    vstd::arithmetic::div_mod::lemma_div_denominator(n, 0x1_0000, 0x100);
    vstd::arithmetic::div_mod::lemma_fundamental_div_mod(n, 0x100);
    vstd::arithmetic::div_mod::lemma_fundamental_div_mod(n / 0x100, 0x100);
    vstd::arithmetic::div_mod::lemma_fundamental_div_mod(n / 0x1_0000, 0x100);
}

impl IpAddr {
    /// Where the address sorts: by this number, smallest first.
    pub open spec fn rank(self) -> nat {
        match self {
            IpAddr::V4(a) => a.bits as nat,
            IpAddr::V6(a) => 0x1_0000_0000 + a.bits as nat,
        }
    }

    /// Whether this address sorts before another.
    pub fn before(&self, other: &IpAddr) -> (r: bool)
        ensures
            r == (self.rank() < other.rank()),
    {
        match (*self, *other) {
            (IpAddr::V4(a), IpAddr::V4(b)) => a.bits < b.bits,
            (IpAddr::V4(_), IpAddr::V6(_)) => true,
            (IpAddr::V6(_), IpAddr::V4(_)) => false,
            (IpAddr::V6(a), IpAddr::V6(b)) => a.bits < b.bits,
        }
    }
}

/// The dotted form is the four bytes of the address in decimal, from the left,
/// with points between them.
pub proof fn law_the_dotted_form_is_its_four_bytes(a: Ipv4Addr, w: u8, x: u8, y: u8, z: u8)
    requires
        a.bits == w * 0x100_0000 + x * 0x1_0000 + y * 0x100 + z,
    ensures
        a.dotted() == crate::text::dec(w as nat) + "."@ + crate::text::dec(x as nat) + "."@
            + crate::text::dec(y as nat) + "."@ + crate::text::dec(z as nat),
{
    let n = a.bits as int;
    let (p, q, r, s) = (w as int, x as int, y as int, z as int);
    vstd::arithmetic::div_mod::lemma_fundamental_div_mod_converse(
        n,
        0x100_0000,
        p,
        q * 0x1_0000 + r * 0x100 + s,
    );
    vstd::arithmetic::div_mod::lemma_fundamental_div_mod_converse(
        n,
        0x1_0000,
        p * 0x100 + q,
        r * 0x100 + s,
    );
    vstd::arithmetic::div_mod::lemma_fundamental_div_mod_converse(p * 0x100 + q, 0x100, p, q);
    vstd::arithmetic::div_mod::lemma_fundamental_div_mod_converse(
        n,
        0x100,
        p * 0x1_0000 + q * 0x100 + r,
        s,
    );
    vstd::arithmetic::div_mod::lemma_fundamental_div_mod_converse(
        p * 0x1_0000 + q * 0x100 + r,
        0x100,
        p * 0x100 + q,
        r,
    );
}

/// Addresses sort by their bits, and every one of four bytes before every one
/// of sixteen.
pub proof fn law_addresses_sort_by_their_bits(a: IpAddr, b: IpAddr)
    ensures
        a is V4 && b is V4 ==> (a.rank() < b.rank() <==> a->V4_0.bits < b->V4_0.bits),
        a is V6 && b is V6 ==> (a.rank() < b.rank() <==> a->V6_0.bits < b->V6_0.bits),
        a is V4 && b is V6 ==> a.rank() < b.rank(),
        a.rank() == b.rank() ==> a == b,
{
}

} // verus!
