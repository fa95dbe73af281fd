//! Reading a captured frame far enough to say what it is.
//!
//! Ethernet, then `IPv4` or `IPv6`, then UDP, then the port numbers and the
//! first bytes of the payload. A frame comes from outside, and whoever can put
//! one on the wire can put anything in it: every field is read with a bounds
//! check, and a truncated or lying header is `None`.

use vstd::prelude::*;
use vstd::slice::slice_subrange;

use crate::addr::{IpAddr, Ipv4Addr, Ipv6Addr};

verus! {

/// The port a `DHCPv4` server, or a relay, listens on.
pub const DHCP_SERVER: u16 = 67;

/// The port a `DHCPv4` client listens on.
pub const DHCP_CLIENT: u16 = 68;

/// The port a `DHCPv6` client listens on.
pub const DHCP6_CLIENT: u16 = 546;

/// The port a `DHCPv6` server, or a relay, listens on.
pub const DHCP6_SERVER: u16 = 547;

/// The port a TFTP server listens on.
pub const TFTP: u16 = 69;

/// The four things worth counting separately.
#[derive(Clone, Copy, Debug, PartialEq, Eq, PartialOrd, Ord, Hash, Structural)]
pub enum Kind {
    /// A client asking: DISCOVER, REQUEST, SOLICIT and the rest.
    ClientRequest,
    /// A server answering: OFFER, ACK, NAK, ADVERTISE, REPLY.
    ServerReply,
    /// A modem asking for a configuration file, and nothing else.
    TftpRequest,
    /// The server answering: data, an option acknowledgement, or an error.
    TftpReply,
}

/// What a frame turned out to be.
#[derive(Clone, Copy, Debug, PartialEq, Eq, Structural)]
pub struct Seen {
    pub kind: Kind,
    pub src: IpAddr,
    pub dst: IpAddr,
    pub sport: u16,
    pub dport: u16,
    /// The gi-address the relay stamped on a `DHCPv4` packet, when there is
    /// one. It names the CMTS interface the packet came through.
    pub gi: Option<Ipv4Addr>,
    /// The transaction id, on a DHCP packet. A request and the reply that
    /// answers it carry the same one.
    pub xid: Option<u32>,
    /// The UDP payload length that the header claims.
    pub bytes: usize,
}

// What the bytes mean.

/// The two bytes at `at` as one number, most significant first.
pub open spec fn be16_at(b: Seq<u8>, at: int) -> nat {
    (b[at] * 0x100 + b[at + 1]) as nat
}

/// The four bytes at `at` as one number, most significant first.
pub open spec fn be32_at(b: Seq<u8>, at: int) -> nat {
    be16_at(b, at) * 0x1_0000 + be16_at(b, at + 2)
}

/// The sixteen bytes at `at` as one number, most significant first.
pub open spec fn be128_at(b: Seq<u8>, at: int) -> nat {
    ((be32_at(b, at) * 0x1_0000_0000 + be32_at(b, at + 4)) * 0x1_0000_0000 + be32_at(b, at + 8))
        * 0x1_0000_0000 + be32_at(b, at + 12)
}

/// Whether an ethertype announces a VLAN tag, 802.1Q or 802.1ad.
pub open spec fn is_tag(ethertype: nat) -> bool {
    ethertype == 0x8100 || ethertype == 0x88A8
}

/// The ethertype that stands at `at` or behind at most `tags` VLAN tags from
/// there, and everything that follows it.
pub open spec fn behind_tags(frame: Seq<u8>, at: int, tags: nat) -> Option<(nat, Seq<u8>)>
    decreases tags,
{
    if frame.len() < at + 2 {
        None
    } else if tags > 0 && is_tag(be16_at(frame, at)) {
        behind_tags(frame, at + 4, (tags - 1) as nat)
    } else {
        Some((be16_at(frame, at), frame.skip(at + 2)))
    }
}

/// An IP packet: source, destination, protocol and payload.
pub ghost struct Datagram {
    pub src: IpAddr,
    pub dst: IpAddr,
    pub proto: u8,
    pub payload: Seq<u8>,
}

/// The `IPv4` packet in `b`: version four, a header of at least twenty bytes
/// that is all there, and not a later fragment.
pub open spec fn v4_datagram(b: Seq<u8>) -> Option<Datagram> {
    let header = (b[0] % 16) * 4;
    if b.len() >= 20 && b[0] / 16 == 4 && 20 <= header <= b.len() && be16_at(b, 6) % 0x2000 == 0 {
        Some(
            Datagram {
                src: IpAddr::V4(Ipv4Addr { bits: be32_at(b, 12) as u32 }),
                dst: IpAddr::V4(Ipv4Addr { bits: be32_at(b, 16) as u32 }),
                proto: b[9],
                payload: b.skip(header),
            },
        )
    } else {
        None
    }
}

/// Where in its packet the piece behind an `IPv6` fragment header belongs, in
/// units of eight bytes: the upper thirteen bits of the third and fourth byte.
pub open spec fn fragment_offset(b: Seq<u8>, at: int) -> nat {
    be16_at(b, at + 2) / 8
}

/// The protocol behind at most `left` extension headers from `at`, and where
/// its own header stands; nothing behind the header of a later fragment.
pub open spec fn behind_extensions(b: Seq<u8>, next: u8, at: int, left: nat) -> Option<(u8, int)>
    decreases left,
{
    if left == 0 {
        Some((next, at))
    } else if next == 0 || next == 43 || next == 60 {
        // Hop-by-hop, routing, destination options: a length in units of
        // eight bytes after the first eight.
        if at + 1 < b.len() {
            behind_extensions(b, b[at], at + (b[at + 1] + 1) * 8, (left - 1) as nat)
        } else {
            None
        }
    } else if next == 44 {
        // A fragment header is eight bytes, and a later fragment has no other
        // protocol's header behind it.
        if at + 3 < b.len() && fragment_offset(b, at) == 0 {
            behind_extensions(b, b[at], at + 8, (left - 1) as nat)
        } else {
            None
        }
    } else {
        Some((next, at))
    }
}

/// The `IPv6` packet in `b`: version six, a whole fixed header, extension
/// headers that stay within the packet, and not a later fragment.
pub open spec fn v6_datagram(b: Seq<u8>) -> Option<Datagram> {
    if b.len() >= 40 && b[0] / 16 == 6 {
        match behind_extensions(b, b[6], 40, 8) {
            Some((proto, at)) if at <= b.len() => Some(
                Datagram {
                    src: IpAddr::V6(Ipv6Addr { bits: be128_at(b, 8) as u128 }),
                    dst: IpAddr::V6(Ipv6Addr { bits: be128_at(b, 24) as u128 }),
                    proto,
                    payload: b.skip(at),
                },
            ),
            _ => None,
        }
    } else {
        None
    }
}

/// The IP packet that an Ethernet frame carries.
pub open spec fn datagram(frame: Seq<u8>) -> Option<Datagram> {
    match behind_tags(frame, 12, 2) {
        Some((ethertype, rest)) => if ethertype == 0x0800 {
            v4_datagram(rest)
        } else if ethertype == 0x86DD {
            v6_datagram(rest)
        } else {
            None
        },
        None => None,
    }
}

/// Whether both ports are `DHCPv4`'s.
pub open spec fn dhcp4_ports(sport: u16, dport: u16) -> bool {
    (sport == DHCP_SERVER || sport == DHCP_CLIENT) && (dport == DHCP_SERVER || dport == DHCP_CLIENT)
}

/// Whether both ports are `DHCPv6`'s.
pub open spec fn dhcp6_ports(sport: u16, dport: u16) -> bool {
    (sport == DHCP6_SERVER || sport == DHCP6_CLIENT) && (dport == DHCP6_SERVER || dport
        == DHCP6_CLIENT)
}

/// The `DHCPv6` message types that a server sends: ADVERTISE, REPLY,
/// RECONFIGURE and RELAY-REPL.
pub open spec fn dhcp6_from_server(t: u8) -> bool {
    t == 2 || t == 7 || t == 10 || t == 13
}

/// What a TFTP opcode counts as: a read request is a request, and nothing else
/// is; data, an error or an option acknowledgement is a reply; flow control
/// counts as neither.
pub open spec fn tftp_meaning(body: Seq<u8>) -> Option<Kind> {
    if body.len() < 2 {
        None
    } else {
        let opcode = be16_at(body, 0);
        if opcode == 1 {
            Some(Kind::TftpRequest)
        } else if opcode == 3 || opcode == 5 || opcode == 6 {
            Some(Kind::TftpReply)
        } else {
            None
        }
    }
}

/// The direction that the ports alone suggest.
pub open spec fn direction_of_ports(sport: u16, dport: u16) -> Kind {
    if (sport == DHCP_SERVER || sport == DHCP6_SERVER) && (dport == DHCP_CLIENT || dport
        == DHCP6_CLIENT) {
        Kind::ServerReply
    } else {
        Kind::ClientRequest
    }
}

/// Which kind a UDP payload between two ports is. The ports say whether it is
/// provisioning; the message says which way it goes, and only a packet with
/// no payload left falls back to the ports.
pub open spec fn meaning(sport: u16, dport: u16, body: Seq<u8>) -> Option<Kind> {
    if sport == TFTP || dport == TFTP {
        tftp_meaning(body)
    } else if dhcp4_ports(sport, dport) {
        Some(
            if body.len() == 0 {
                direction_of_ports(sport, dport)
            } else if body[0] == 2 {
                Kind::ServerReply
            } else {
                Kind::ClientRequest
            },
        )
    } else if dhcp6_ports(sport, dport) {
        Some(
            if body.len() == 0 {
                direction_of_ports(sport, dport)
            } else if dhcp6_from_server(body[0]) {
                Kind::ServerReply
            } else {
                Kind::ClientRequest
            },
        )
    } else {
        None
    }
}

/// The gi-address of a `DHCPv4` payload: bytes 24 to 27, unless they are zero.
pub open spec fn relay_of(sport: u16, dport: u16, body: Seq<u8>) -> Option<Ipv4Addr> {
    if dhcp4_ports(sport, dport) && body.len() >= 28 && be32_at(body, 24) != 0 {
        Some(Ipv4Addr { bits: be32_at(body, 24) as u32 })
    } else {
        None
    }
}

/// The transaction id of a DHCP payload: four bytes at 4 in `DHCPv4`, three
/// bytes at 1 in `DHCPv6`.
pub open spec fn transaction(sport: u16, dport: u16, body: Seq<u8>) -> Option<u32> {
    if dhcp4_ports(sport, dport) {
        if body.len() >= 8 {
            Some(be32_at(body, 4) as u32)
        } else {
            None
        }
    } else if dhcp6_ports(sport, dport) {
        if body.len() >= 4 {
            Some((body[1] * 0x1_0000 + be16_at(body, 2)) as u32)
        } else {
            None
        }
    } else {
        None
    }
}

/// What follows a UDP header in `b`.
pub open spec fn udp_body(b: Seq<u8>) -> Seq<u8> {
    if b.len() >= 8 {
        b.skip(8)
    } else {
        Seq::empty()
    }
}

/// What a UDP packet is: its ports and length are there, the length covers
/// its own header, and the payload is provisioning.
pub open spec fn udp_reading(d: Datagram) -> Option<Seen> {
    let b = d.payload;
    if d.proto == 17 && b.len() >= 6 && be16_at(b, 4) >= 8 {
        let sport = be16_at(b, 0) as u16;
        let dport = be16_at(b, 2) as u16;
        match meaning(sport, dport, udp_body(b)) {
            Some(kind) => Some(
                Seen {
                    kind,
                    src: d.src,
                    dst: d.dst,
                    sport,
                    dport,
                    gi: relay_of(sport, dport, udp_body(b)),
                    xid: transaction(sport, dport, udp_body(b)),
                    bytes: (be16_at(b, 4) - 8) as usize,
                },
            ),
            None => None,
        }
    } else {
        None
    }
}

/// What a whole Ethernet frame is.
pub open spec fn reading(frame: Seq<u8>) -> Option<Seen> {
    match datagram(frame) {
        Some(d) => udp_reading(d),
        None => None,
    }
}

// Reading them.

fn be16(b: &[u8], at: usize) -> (r: Option<u16>)
    requires
        at < usize::MAX,
    ensures
        r == (if at + 2 <= b@.len() {
            Some(be16_at(b@, at as int) as u16)
        } else {
            None
        }),
{
    if at + 1 < b.len() {
        Some(b[at] as u16 * 0x100 + b[at + 1] as u16)
    } else {
        None
    }
}

fn quad(b: &[u8], at: usize) -> (r: Option<u32>)
    requires
        at <= 0xffff,
    ensures
        r == (if at + 4 <= b@.len() {
            Some(be32_at(b@, at as int) as u32)
        } else {
            None
        }),
{
    if b.len() >= 4 && at <= b.len() - 4 {
        let high: u32 = b[at] as u32 * 0x100 + b[at + 1] as u32;
        let low: u32 = b[at + 2] as u32 * 0x100 + b[at + 3] as u32;
        Some(high * 0x1_0000 + low)
    } else {
        None
    }
}

fn sixteen(b: &[u8], at: usize) -> (r: Option<u128>)
    requires
        at <= 0xff,
    ensures
        r == (if at + 16 <= b@.len() {
            Some(be128_at(b@, at as int) as u128)
        } else {
            None
        }),
{
    match (quad(b, at), quad(b, at + 4), quad(b, at + 8), quad(b, at + 12)) {
        (Some(a), Some(b), Some(c), Some(d)) => {
            let high: u128 = a as u128 * 0x1_0000_0000 + b as u128;
            let low: u128 = c as u128 * 0x1_0000_0000 + d as u128;
            Some(high * 0x1_0000_0000_0000_0000 + low)
        },
        _ => None,
    }
}

/// The ethertype and what follows it, with up to two VLAN tags stepped over.
fn ethernet(frame: &[u8]) -> (r: Option<(u16, &[u8])>)
    ensures
        match (r, behind_tags(frame@, 12, 2)) {
            (Some((ethertype, rest)), Some((e, s))) => ethertype as nat == e && rest@ == s,
            (None, None) => true,
            _ => false,
        },
{
    let mut at: usize = 12;
    let mut ethertype: u16 = match be16(frame, at) {
        Some(e) => e,
        None => return None,
    };
    let mut left: usize = 2;
    while left > 0 && (ethertype == 0x8100 || ethertype == 0x88A8)
        invariant
            left <= 2,
            at == 12 + 4 * (2 - left),
            at + 2 <= frame@.len(),
            ethertype as nat == be16_at(frame@, at as int),
            behind_tags(frame@, 12, 2) == behind_tags(frame@, at as int, left as nat),
        decreases left,
    {
        at = at + 4;
        left = left - 1;
        match be16(frame, at) {
            Some(e) => {
                ethertype = e;
            },
            None => return None,
        }
    }
    Some((ethertype, slice_subrange(frame, at + 2, frame.len())))
}

/// An IP packet as the readers below hand it on.
struct Ip<'a> {
    src: IpAddr,
    dst: IpAddr,
    proto: u8,
    payload: &'a [u8],
}

impl<'a> Ip<'a> {
    spec fn model(self) -> Datagram {
        Datagram { src: self.src, dst: self.dst, proto: self.proto, payload: self.payload@ }
    }
}

/// Source, destination, protocol and payload of an `IPv4` packet.
fn ipv4(b: &[u8]) -> (r: Option<Ip<'_>>)
    ensures
        match (r, v4_datagram(b@)) {
            (Some(ip), Some(d)) => ip.model() == d,
            (None, None) => true,
            _ => false,
        },
{
    if b.len() < 20 {
        return None;
    }
    let first: u8 = b[0];
    if first / 16 != 4 {
        return None;
    }
    // The header length is in 32-bit words and has a floor of five.
    let header: usize = (first % 16) as usize * 4;
    if header < 20 || header > b.len() {
        return None;
    }
    // A fragment that is not the first has no UDP header in it.
    match be16(b, 6) {
        Some(frag) => if frag % 0x2000 != 0 {
            return None;
        },
        None => return None,
    }
    match (quad(b, 12), quad(b, 16)) {
        (Some(src), Some(dst)) => {
            let payload = slice_subrange(b, header, b.len());
            assert(payload@ =~= b@.skip(header as int));
            Some(
                Ip {
                    src: IpAddr::V4(Ipv4Addr { bits: src }),
                    dst: IpAddr::V4(Ipv4Addr { bits: dst }),
                    proto: b[9],
                    payload,
                },
            )
        },
        _ => None,
    }
}

/// The same for `IPv6`, following the extension headers. The walk is bounded,
/// and ends with nothing at the header of a later fragment.
fn ipv6(b: &[u8]) -> (r: Option<Ip<'_>>)
    ensures
        match (r, v6_datagram(b@)) {
            (Some(ip), Some(d)) => ip.model() == d,
            (None, None) => true,
            _ => false,
        },
{
    if b.len() < 40 || b[0] / 16 != 6 {
        return None;
    }
    let mut next: u8 = b[6];
    let mut at: usize = 40;
    let mut left: usize = 8;
    while left > 0 && (next == 0 || next == 43 || next == 60 || next == 44)
        invariant
            left <= 8,
            b@.len() >= 40,
            40 <= at <= 40 + 2048 * (8 - left),
            behind_extensions(b@, b@[6], 40, 8) == behind_extensions(
                b@,
                next,
                at as int,
                left as nat,
            ),
        decreases left,
    {
        if next == 44 {
            match be16(b, at + 2) {
                Some(place) => {
                    if place / 8 != 0 {
                        return None;
                    }
                },
                None => {
                    return None;
                },
            }
            next = b[at];
            at = at + 8;
        } else {
            if at + 1 >= b.len() {
                return None;
            }
            let len: usize = (b[at + 1] as usize + 1) * 8;
            next = b[at];
            at = at + len;
        }
        left = left - 1;
    }
    if at > b.len() {
        return None;
    }
    match (sixteen(b, 8), sixteen(b, 24)) {
        (Some(src), Some(dst)) => {
            let payload = slice_subrange(b, at, b.len());
            assert(payload@ =~= b@.skip(at as int));
            Some(
                Ip {
                    src: IpAddr::V6(Ipv6Addr { bits: src }),
                    dst: IpAddr::V6(Ipv6Addr { bits: dst }),
                    proto: next,
                    payload,
                },
            )
        },
        _ => None,
    }
}

/// Ports, payload length, and the payload itself. The length comes from the
/// header and the payload from the frame; a truncated capture has them differ.
fn udp(b: &[u8]) -> (r: Option<(u16, u16, usize, &[u8])>)
    ensures
        match r {
            Some((sport, dport, len, body)) => {
                &&& b@.len() >= 6 && be16_at(b@, 4) >= 8
                &&& sport as nat == be16_at(b@, 0)
                &&& dport as nat == be16_at(b@, 2)
                &&& len == be16_at(b@, 4) - 8
                &&& body@ == udp_body(b@)
            },
            None => b@.len() < 6 || be16_at(b@, 4) < 8,
        },
{
    match (be16(b, 0), be16(b, 2), be16(b, 4)) {
        (Some(sport), Some(dport), Some(len)) => {
            if len < 8 {
                return None;
            }
            let start: usize = if b.len() >= 8 {
                8
            } else {
                b.len()
            };
            let body = slice_subrange(b, start, b.len());
            assert(body@ =~= udp_body(b@));
            Some((sport, dport, len as usize - 8, body))
        },
        _ => None,
    }
}

fn is_dhcp4(sport: u16, dport: u16) -> (r: bool)
    ensures
        r == dhcp4_ports(sport, dport),
{
    (sport == DHCP_SERVER || sport == DHCP_CLIENT) && (dport == DHCP_SERVER || dport == DHCP_CLIENT)
}

fn is_dhcp6(sport: u16, dport: u16) -> (r: bool)
    ensures
        r == dhcp6_ports(sport, dport),
{
    (sport == DHCP6_SERVER || sport == DHCP6_CLIENT) && (dport == DHCP6_SERVER || dport
        == DHCP6_CLIENT)
}

/// Whether a `DHCPv6` message type is one that a server sends.
fn is_dhcp6_server_message(t: u8) -> (r: bool)
    ensures
        r == dhcp6_from_server(t),
{
    t == 2 || t == 7 || t == 10 || t == 13
}

/// The direction a pair of ports suggests, for a packet with no payload left.
fn port_direction(sport: u16, dport: u16) -> (r: Kind)
    ensures
        r == direction_of_ports(sport, dport),
{
    if (sport == DHCP_SERVER || sport == DHCP6_SERVER) && (dport == DHCP_CLIENT || dport
        == DHCP6_CLIENT) {
        Kind::ServerReply
    } else {
        Kind::ClientRequest
    }
}

/// Which kind a TFTP packet is, by its opcode: 1 RRQ, 2 WRQ, 3 DATA, 4 ACK,
/// 5 ERROR, 6 OACK.
fn tftp_kind(body: &[u8]) -> (r: Option<Kind>)
    ensures
        r == tftp_meaning(body@),
{
    match be16(body, 0) {
        Some(opcode) => if opcode == 1 {
            Some(Kind::TftpRequest)
        } else if opcode == 3 || opcode == 5 || opcode == 6 {
            Some(Kind::TftpReply)
        } else {
            None
        },
        None => None,
    }
}

/// Which of the four kinds a packet is, if any.
///
/// A relayed conversation travels 67 to 67 in both directions, so the
/// direction comes from the message: `op` in `DHCPv4`, the message type in
/// `DHCPv6`, the opcode in TFTP.
pub fn classify(sport: u16, dport: u16, body: &[u8]) -> (r: Option<Kind>)
    ensures
        r == meaning(sport, dport, body@),
{
    if sport == TFTP || dport == TFTP {
        tftp_kind(body)
    } else if is_dhcp4(sport, dport) {
        if body.len() == 0 {
            Some(port_direction(sport, dport))
        } else if body[0] == 2 {
            Some(Kind::ServerReply)
        } else {
            Some(Kind::ClientRequest)
        }
    } else if is_dhcp6(sport, dport) {
        if body.len() == 0 {
            Some(port_direction(sport, dport))
        } else if is_dhcp6_server_message(body[0]) {
            Some(Kind::ServerReply)
        } else {
            Some(Kind::ClientRequest)
        }
    } else {
        None
    }
}

/// The gi-address out of a `DHCPv4` packet, when it carries one.
pub fn giaddr(sport: u16, dport: u16, body: &[u8]) -> (r: Option<Ipv4Addr>)
    ensures
        r == relay_of(sport, dport, body@),
{
    if !is_dhcp4(sport, dport) {
        return None;
    }
    match quad(body, 24) {
        Some(bits) => {
            let gi = Ipv4Addr { bits };
            if gi.is_unspecified() {
                None
            } else {
                Some(gi)
            }
        },
        None => None,
    }
}

/// The transaction id, which a request and its answer share.
pub fn xid(sport: u16, dport: u16, body: &[u8]) -> (r: Option<u32>)
    ensures
        r == transaction(sport, dport, body@),
{
    if is_dhcp4(sport, dport) {
        quad(body, 4)
    } else if is_dhcp6(sport, dport) {
        match be16(body, 2) {
            Some(low) => Some(body[1] as u32 * 0x1_0000 + low as u32),
            None => None,
        }
    } else {
        None
    }
}

/// Reads one Ethernet frame, or decides it is none of this program's business.
pub fn read(frame: &[u8]) -> (r: Option<Seen>)
    ensures
        r == reading(frame@),
{
    let (ethertype, rest) = match ethernet(frame) {
        Some(found) => found,
        None => return None,
    };
    let ip = if ethertype == 0x0800 {
        ipv4(rest)
    } else if ethertype == 0x86DD {
        ipv6(rest)
    } else {
        None
    };
    let ip = match ip {
        Some(ip) => ip,
        None => return None,
    };
    if ip.proto != 17 {
        return None;
    }
    let (sport, dport, bytes, body) = match udp(ip.payload) {
        Some(found) => found,
        None => return None,
    };
    match classify(sport, dport, body) {
        Some(kind) => Some(
            Seen {
                kind,
                src: ip.src,
                dst: ip.dst,
                sport,
                dport,
                gi: giaddr(sport, dport, body),
                xid: xid(sport, dport, body),
                bytes,
            },
        ),
        None => None,
    }
}

// What holds of every reading.

/// Behind four inserted bytes, a walk over VLAN tags finds what it found
/// before.
proof fn lemma_tags_shift(frame: Seq<u8>, tag: Seq<u8>, at: int, tags: nat)
    requires
        tag.len() == 4,
        12 <= at,
        12 <= frame.len(),
    ensures
        behind_tags(frame.take(12) + tag + frame.skip(12), at + 4, tags) == behind_tags(
            frame,
            at,
            tags,
        ),
    decreases tags,
{
    let tagged = frame.take(12) + tag + frame.skip(12);
    if frame.len() >= at + 2 {
        assert(tagged[at + 4] == frame[at]);
        assert(tagged[at + 5] == frame[at + 1]);
        assert(tagged.skip(at + 6) =~= frame.skip(at + 2));
        if tags > 0 {
            lemma_tags_shift(frame, tag, at + 4, (tags - 1) as nat);
        }
    }
}

/// A VLAN tag is stepped over: a frame that carries at most one tag reads the
/// same with one more in front.
pub proof fn law_vlan_tag_changes_nothing(frame: Seq<u8>, tag: Seq<u8>)
    requires
        tag.len() == 4,
        is_tag(be16_at(tag, 0)),
        12 <= frame.len(),
        !(frame.len() >= 18 && is_tag(be16_at(frame, 12)) && is_tag(be16_at(frame, 16))),
    ensures
        reading(frame.take(12) + tag + frame.skip(12)) == reading(frame),
{
    let tagged = frame.take(12) + tag + frame.skip(12);
    assert(tagged[12] == tag[0] && tagged[13] == tag[1]);
    lemma_tags_shift(frame, tag, 12, 1);
    assert(behind_tags(tagged, 12, 2) == behind_tags(frame, 12, 1));
    reveal_with_fuel(behind_tags, 3);
    assert(behind_tags(frame, 12, 1) == behind_tags(frame, 12, 2));
}

/// The walk over tags is bounded: a frame with three of them is nothing.
pub proof fn law_three_tags_are_no_frame(frame: Seq<u8>)
    requires
        frame.len() >= 22,
        is_tag(be16_at(frame, 12)),
        is_tag(be16_at(frame, 16)),
        is_tag(be16_at(frame, 20)),
    ensures
        reading(frame) is None,
{
    reveal_with_fuel(behind_tags, 3);
}

/// The extension headers of an `IPv6` packet, of which each has its number and
/// stands somewhere: at most `left` of them from `at`.
pub open spec fn extensions(b: Seq<u8>, next: u8, at: int, left: nat) -> Seq<(u8, int)>
    decreases left,
{
    if left == 0 || at + 1 >= b.len() {
        Seq::empty()
    } else if next == 0 || next == 43 || next == 60 {
        seq![(next, at)] + extensions(b, b[at], at + (b[at + 1] + 1) * 8, (left - 1) as nat)
    } else if next == 44 {
        seq![(next, at)] + extensions(b, b[at], at + 8, (left - 1) as nat)
    } else {
        Seq::empty()
    }
}

/// A fragment that is not the first is not counted again: an `IPv4` packet with
/// a fragment offset, and an `IPv6` packet with one in a fragment header, which
/// may stand anywhere among its extension headers.
pub proof fn law_later_fragment_is_nothing(frame: Seq<u8>, packet: Seq<u8>)
    requires
        ({
            ||| behind_tags(frame, 12, 2) == Some((0x0800nat, packet)) && be16_at(packet, 6)
                % 0x2000 != 0
            ||| behind_tags(frame, 12, 2) == Some((0x86DDnat, packet)) && exists|i: int|
                0 <= i < extensions(packet, packet[6], 40, 8).len() && (#[trigger] extensions(
                    packet,
                    packet[6],
                    40,
                    8,
                )[i]).0 == 44 && fragment_offset(
                    packet,
                    extensions(packet, packet[6], 40, 8)[i].1,
                ) != 0
        }),
    ensures
        reading(frame) is None,
{
    if behind_tags(frame, 12, 2) == Some((0x86DDnat, packet)) {
        let all = extensions(packet, packet[6], 40, 8);
        let i = choose|i: int|
            0 <= i < all.len() && (#[trigger] all[i]).0 == 44 && fragment_offset(packet, all[i].1)
                != 0;
        lemma_later_fragment(packet, packet[6], 40, 8, i);
    }
}

proof fn lemma_later_fragment(b: Seq<u8>, next: u8, at: int, left: nat, i: int)
    requires
        0 <= i < extensions(b, next, at, left).len(),
        extensions(b, next, at, left)[i].0 == 44,
        fragment_offset(b, extensions(b, next, at, left)[i].1) != 0,
    ensures
        behind_extensions(b, next, at, left) is None,
    decreases left,
{
    if i > 0 {
        let rest = if next == 44 {
            extensions(b, b[at], at + 8, (left - 1) as nat)
        } else {
            extensions(b, b[at], at + (b[at + 1] + 1) * 8, (left - 1) as nat)
        };
        assert(extensions(b, next, at, left)[i] == rest[i - 1]);
        if next == 44 {
            lemma_later_fragment(b, b[at], at + 8, (left - 1) as nat, i - 1);
        } else {
            lemma_later_fragment(b, b[at], at + (b[at + 1] + 1) * 8, (left - 1) as nat, i - 1);
        }
    }
}

/// Whatever is read came over UDP, between ports that mean provisioning.
pub proof fn law_only_provisioning_is_read(frame: Seq<u8>)
    ensures
        match reading(frame) {
            Some(seen) => {
                &&& datagram(frame) is Some && datagram(frame)->0.proto == 17
                &&& seen.sport == TFTP || seen.dport == TFTP || dhcp4_ports(seen.sport, seen.dport)
                    || dhcp6_ports(seen.sport, seen.dport)
            },
            None => true,
        },
{
}

/// With a payload to read, the message alone decides the direction of a DHCP
/// packet: any two pairs of ports of the same protocol say the same.
pub proof fn law_direction_comes_from_the_message(
    sport: u16,
    dport: u16,
    other_sport: u16,
    other_dport: u16,
    body: Seq<u8>,
)
    requires
        body.len() > 0,
        dhcp4_ports(sport, dport) && dhcp4_ports(other_sport, other_dport) || dhcp6_ports(
            sport,
            dport,
        ) && dhcp6_ports(other_sport, other_dport),
    ensures
        meaning(sport, dport, body) == meaning(other_sport, other_dport, body),
{
}

/// A request and the answer that repeats its transaction id are given the
/// same one, whichever way the ports point and whatever else the two say.
pub proof fn law_answer_shares_the_transaction(
    sport: u16,
    dport: u16,
    request: Seq<u8>,
    answer: Seq<u8>,
)
    requires
        request.len() >= 8,
        answer.len() >= 8,
        dhcp4_ports(sport, dport) ==> request.subrange(4, 8) == answer.subrange(4, 8),
        dhcp6_ports(sport, dport) ==> request.subrange(1, 4) == answer.subrange(1, 4),
    ensures
        transaction(sport, dport, request) == transaction(dport, sport, answer),
{
    if dhcp4_ports(sport, dport) {
        assert forall|i: int| 4 <= i < 8 implies request[i] == answer[i] by {
            assert(request.subrange(4, 8)[i - 4] == answer.subrange(4, 8)[i - 4]);
        }
    } else if dhcp6_ports(sport, dport) {
        assert forall|i: int| 1 <= i < 4 implies request[i] == answer[i] by {
            assert(request.subrange(1, 4)[i - 1] == answer.subrange(1, 4)[i - 1]);
        }
    }
}

/// A whole TFTP fetch is one read and one send: the read request and the data
/// count once each, and the acknowledgement between them counts as nothing.
pub proof fn law_tftp_fetch_counts_once_each_way(sport: u16, dport: u16, body: Seq<u8>)
    requires
        sport == TFTP || dport == TFTP,
        body.len() >= 2,
    ensures
        meaning(sport, dport, body) == Some(Kind::TftpRequest) <==> be16_at(body, 0) == 1,
        be16_at(body, 0) == 3 ==> meaning(sport, dport, body) == Some(Kind::TftpReply),
        be16_at(body, 0) == 4 ==> meaning(sport, dport, body) is None,
{
}

/// Only a `DHCPv4` packet has a gi-address, and only DHCP has a transaction
/// id: a TFTP packet is given neither. No gi-address is ever `0.0.0.0`.
pub proof fn law_tftp_has_no_relay_and_no_transaction(frame: Seq<u8>)
    ensures
        match reading(frame) {
            Some(seen) => {
                &&& seen.kind == Kind::TftpRequest || seen.kind == Kind::TftpReply ==> seen.gi
                    is None && seen.xid is None
                &&& seen.gi matches Some(g) ==> g.bits != 0 && dhcp4_ports(seen.sport, seen.dport)
            },
            None => true,
        },
{
}

// What each answer is for, in bytes.

/// The four bytes at `at`, as the number that they write.
pub open spec fn word4(b: Seq<u8>, at: int) -> int {
    b[at] * 0x100_0000 + b[at + 1] * 0x1_0000 + b[at + 2] * 0x100 + b[at + 3]
}

/// A `DHCPv4` packet is one between the ports 67 and 68 in either direction.
/// Its first byte says which way it goes: two is an answer, and anything else
/// is a question. Without a payload, only 67 to 68 is an answer.
pub proof fn law_dhcp4_goes_by_its_first_byte(sport: u16, dport: u16, body: Seq<u8>)
    requires
        sport == 67 || sport == 68,
        dport == 67 || dport == 68,
    ensures
        body.len() > 0 && body[0] == 2 ==> meaning(sport, dport, body) == Some(Kind::ServerReply),
        body.len() > 0 && body[0] != 2 ==> meaning(sport, dport, body) == Some(Kind::ClientRequest),
        body.len() == 0 && sport == 67 && dport == 68 ==> meaning(sport, dport, body) == Some(
            Kind::ServerReply,
        ),
        body.len() == 0 && !(sport == 67 && dport == 68) ==> meaning(sport, dport, body) == Some(
            Kind::ClientRequest,
        ),
{
}

/// A `DHCPv6` packet is one between the ports 546 and 547 in either direction.
/// Its first byte is the type of its message, and four types are answers.
/// Without a payload, only 547 to 546 is an answer.
pub proof fn law_dhcp6_goes_by_its_first_byte(sport: u16, dport: u16, body: Seq<u8>)
    requires
        sport == 546 || sport == 547,
        dport == 546 || dport == 547,
    ensures
        body.len() > 0 && (body[0] == 2 || body[0] == 7 || body[0] == 10 || body[0] == 13)
            ==> meaning(sport, dport, body) == Some(Kind::ServerReply),
        body.len() > 0 && !(body[0] == 2 || body[0] == 7 || body[0] == 10 || body[0] == 13)
            ==> meaning(sport, dport, body) == Some(Kind::ClientRequest),
        body.len() == 0 && sport == 547 && dport == 546 ==> meaning(sport, dport, body) == Some(
            Kind::ServerReply,
        ),
        body.len() == 0 && !(sport == 547 && dport == 546) ==> meaning(sport, dport, body) == Some(
            Kind::ClientRequest,
        ),
{
}

/// A TFTP packet has 69 for one of its ports, and its opcode says what it is:
/// one is a read request; three, five and six are what the server sends; and
/// nothing else counts.
pub proof fn law_tftp_goes_by_its_opcode(sport: u16, dport: u16, body: Seq<u8>)
    requires
        sport == 69 || dport == 69,
    ensures
        meaning(sport, dport, body) == Some(Kind::TftpRequest) <==> body.len() >= 2 && body[0] == 0
            && body[1] == 1,
        meaning(sport, dport, body) == Some(Kind::TftpReply) <==> body.len() >= 2 && body[0] == 0 && (
        body[1] == 3 || body[1] == 5 || body[1] == 6),
        meaning(sport, dport, body) is None <==> !(body.len() >= 2 && body[0] == 0 && (body[1] == 1
            || body[1] == 3 || body[1] == 5 || body[1] == 6)),
{
}

/// Between any other ports there is no provisioning.
pub proof fn law_other_ports_are_nothing(sport: u16, dport: u16, body: Seq<u8>)
    requires
        sport != 69 && dport != 69,
        !((sport == 67 || sport == 68) && (dport == 67 || dport == 68)),
        !((sport == 546 || sport == 547) && (dport == 546 || dport == 547)),
    ensures
        meaning(sport, dport, body) is None,
        relay_of(sport, dport, body) is None,
        transaction(sport, dport, body) is None,
{
}

/// The gi-address of a `DHCPv4` packet, question or answer, is its bytes 24 to
/// 27 and nothing else: there is one exactly when they are there and not all
/// zero. No other packet has one.
pub proof fn law_the_relay_is_bytes_24_to_27(sport: u16, dport: u16, body: Seq<u8>)
    ensures
        ({
            let dhcp4 = (sport == 67 || sport == 68) && (dport == 67 || dport == 68);
            let zero = body[24] == 0 && body[25] == 0 && body[26] == 0 && body[27] == 0;
            &&& relay_of(sport, dport, body) is Some <==> dhcp4 && body.len() >= 28 && !zero
            &&& relay_of(sport, dport, body) matches Some(gi) ==> gi.bits == word4(body, 24)
        }),
{
}

/// Two `DHCPv4` packets with the same bytes there came through the same
/// interface, whatever else they say.
pub proof fn law_the_relay_is_nothing_else(
    sport: u16,
    dport: u16,
    body: Seq<u8>,
    other_sport: u16,
    other_dport: u16,
    other: Seq<u8>,
)
    requires
        (sport == 67 || sport == 68) && (dport == 67 || dport == 68),
        (other_sport == 67 || other_sport == 68) && (other_dport == 67 || other_dport == 68),
        body.len() >= 28,
        other.len() >= 28,
        body.subrange(24, 28) == other.subrange(24, 28),
    ensures
        relay_of(sport, dport, body) == relay_of(other_sport, other_dport, other),
{
    let (a, b) = (body.subrange(24, 28), other.subrange(24, 28));
    assert(a[0] == body[24] && a[1] == body[25] && a[2] == body[26] && a[3] == body[27]);
    assert(b[0] == other[24] && b[1] == other[25] && b[2] == other[26] && b[3] == other[27]);
}

/// The transaction of a `DHCPv4` packet is its bytes 4 to 7, and that of a
/// `DHCPv6` packet its bytes 1 to 3; there is one exactly when they are there.
pub proof fn law_the_transaction_is_its_bytes(sport: u16, dport: u16, body: Seq<u8>)
    ensures
        (sport == 67 || sport == 68) && (dport == 67 || dport == 68) ==> (transaction(
            sport,
            dport,
            body,
        ) is Some <==> body.len() >= 8) && (body.len() >= 8 ==> transaction(sport, dport, body)->0
            == word4(body, 4)),
        (sport == 546 || sport == 547) && (dport == 546 || dport == 547) ==> (transaction(
            sport,
            dport,
            body,
        ) is Some <==> body.len() >= 4) && (body.len() >= 4 ==> transaction(sport, dport, body)->0
            == body[1] * 0x1_0000 + body[2] * 0x100 + body[3]),
        sport == 69 || dport == 69 ==> transaction(sport, dport, body) is None,
{
}

/// What stands behind a UDP header at `at`.
pub open spec fn behind_udp(b: Seq<u8>, at: int) -> Seq<u8> {
    if b.len() >= at + 8 {
        b.skip(at + 8)
    } else {
        Seq::empty()
    }
}

/// Whether what was read is what the bytes say, of a UDP header at `at`: its
/// two ports, its length less its own eight bytes, and what its payload means.
pub open spec fn is_read_at(r: Option<Seen>, b: Seq<u8>, at: int, src: IpAddr, dst: IpAddr) -> bool {
    let sport = (b[at] * 0x100 + b[at + 1]) as u16;
    let dport = (b[at + 2] * 0x100 + b[at + 3]) as u16;
    let len = b[at + 4] * 0x100 + b[at + 5];
    let body = behind_udp(b, at);
    if b.len() >= at + 6 && len >= 8 && meaning(sport, dport, body) is Some {
        r == Some(
            Seen {
                kind: meaning(sport, dport, body)->0,
                src,
                dst,
                sport,
                dport,
                gi: relay_of(sport, dport, body),
                xid: transaction(sport, dport, body),
                bytes: (len - 8) as usize,
            },
        )
    } else {
        r is None
    }
}

/// An Ethernet frame that carries `IPv4` without a tag is read field by field,
/// each at its place: version and header length in byte 14, the fragment
/// offset in 20 and 21, the protocol in 23, the two addresses from 26 on, and
/// UDP behind the header. Whatever does not fit is nothing.
pub proof fn law_an_ipv4_frame_is_read_field_by_field(frame: Seq<u8>)
    requires
        frame.len() >= 14,
        frame[12] == 8,
        frame[13] == 0,
    ensures
        ({
            let at = 14 + 4 * (frame[14] % 16);
            let whole = frame.len() >= 34 && frame[14] / 16 == 4 && frame[14] % 16 >= 5
                && frame.len() >= at;
            let first = (frame[20] * 0x100 + frame[21]) % 0x2000 == 0;
            if whole && first && frame[23] == 17 {
                is_read_at(
                    reading(frame),
                    frame,
                    at,
                    IpAddr::V4(Ipv4Addr { bits: word4(frame, 26) as u32 }),
                    IpAddr::V4(Ipv4Addr { bits: word4(frame, 30) as u32 }),
                )
            } else {
                reading(frame) is None
            }
        }),
{
    let b = frame.skip(14);
    assert(be16_at(frame, 12) == 0x800);
    assert(behind_tags(frame, 12, 2) == Some((0x800nat, b)));
    let header = (b[0] % 16) * 4;
    if b.len() >= header {
        assert(udp_body(b.skip(header)) =~= behind_udp(frame, 14 + header));
    }
}

/// The same of `IPv6` without extension headers: version in byte 14, the
/// protocol in 20, the two addresses in 22 to 37 and 38 to 53, and UDP behind
/// them.
pub proof fn law_an_ipv6_frame_is_read_field_by_field(frame: Seq<u8>)
    requires
        frame.len() >= 14,
        frame[12] == 0x86,
        frame[13] == 0xDD,
        frame[20] == 17,
    ensures
        if frame.len() >= 54 && frame[14] / 16 == 6 {
            is_read_at(
                reading(frame),
                frame,
                54,
                IpAddr::V6(
                    Ipv6Addr {
                        bits: (word4(frame, 22) * 0x1_0000_0000_0000_0000_0000_0000 + word4(frame, 26)
                            * 0x1_0000_0000_0000_0000 + word4(frame, 30) * 0x1_0000_0000 + word4(
                            frame,
                            34,
                        )) as u128,
                    },
                ),
                IpAddr::V6(
                    Ipv6Addr {
                        bits: (word4(frame, 38) * 0x1_0000_0000_0000_0000_0000_0000 + word4(frame, 42)
                            * 0x1_0000_0000_0000_0000 + word4(frame, 46) * 0x1_0000_0000 + word4(
                            frame,
                            50,
                        )) as u128,
                    },
                ),
            )
        } else {
            reading(frame) is None
        },
{
    let b = frame.skip(14);
    assert(be16_at(frame, 12) == 0x86DD);
    assert(behind_tags(frame, 12, 2) == Some((0x86DDnat, b)));
    if b.len() >= 40 {
        assert(behind_extensions(b, b[6], 40, 8) == Some((17u8, 40int)));
        assert(udp_body(b.skip(40)) =~= behind_udp(frame, 54));
    }
}

/// A frame that carries anything else, or is too short to say what, is nothing;
/// and so is an `IPv6` packet without extension headers that carries no UDP.
pub proof fn law_other_frames_are_nothing(frame: Seq<u8>)
    requires
        ({
            let ethertype = frame[12] * 0x100 + frame[13];
            ||| frame.len() < 14
            ||| ethertype != 0x0800 && ethertype != 0x86DD && ethertype != 0x8100 && ethertype
                != 0x88A8
            ||| ethertype == 0x86DD && frame[20] != 17 && frame[20] != 0 && frame[20] != 43
                && frame[20] != 44 && frame[20] != 60
        }),
    ensures
        reading(frame) is None,
{
    if frame.len() >= 14 {
        let b = frame.skip(14);
        assert(behind_tags(frame, 12, 2) is Some && (frame[12] * 0x100 + frame[13] == 0x86DD
            ==> behind_tags(frame, 12, 2) == Some((0x86DDnat, b))));
        if b.len() >= 40 && frame[12] * 0x100 + frame[13] == 0x86DD {
            assert(b[6] == frame[20]);
            assert(behind_extensions(b, b[6], 40, 8) == Some((b[6], 40int)));
        }
    }
}

/// A VLAN tag, 802.1Q or 802.1ad, is stepped over, and a second one behind it:
/// a frame with at most one of them reads the same with one more in front,
/// whatever the tag carries.
pub proof fn law_either_tag_is_stepped_over(frame: Seq<u8>, tag: Seq<u8>)
    requires
        tag.len() == 4,
        tag[0] == 0x81 && tag[1] == 0 || tag[0] == 0x88 && tag[1] == 0xA8,
        12 <= frame.len(),
        !(frame.len() >= 18 && (frame[16] == 0x81 && frame[17] == 0 || frame[16] == 0x88
            && frame[17] == 0xA8)),
    ensures
        reading(frame.take(12) + tag + frame.skip(12)) == reading(frame),
{
    law_vlan_tag_changes_nothing(frame, tag);
}

proof fn lemma_fewer_headers(b: Seq<u8>, next: u8, at: int, left: nat)
    requires
        left > 0,
        0 <= at,
        extensions(b, next, at, left).len() < left,
        behind_extensions(b, next, at, left) is Some,
    ensures
        behind_extensions(b, next, at, (left - 1) as nat) == behind_extensions(b, next, at, left),
    decreases left,
{
    let ext = next == 0 || next == 43 || next == 60 || next == 44;
    if ext {
        let step: int = if next == 44 {
            8
        } else {
            (b[at + 1] + 1) * 8
        };
        let fewer = (left - 1) as nat;
        assert(at + 1 < b.len());
        assert(extensions(b, next, at, left) == seq![(next, at)] + extensions(
            b,
            b[at],
            at + step,
            fewer,
        ));
        if left > 1 {
            lemma_fewer_headers(b, b[at], at + step, fewer);
        }
    }
}

proof fn lemma_headers_shift(b: Seq<u8>, c: Seq<u8>, next: u8, at: int, by: int, left: nat)
    requires
        0 <= at,
        0 <= by,
        c.len() == b.len() + by,
        forall|i: int| at <= i < b.len() ==> #[trigger] b[i] == c[i + by],
    ensures
        behind_extensions(c, next, at + by, left) == (match behind_extensions(b, next, at, left) {
            Some((n, p)) => Some((n, p + by)),
            None => None,
        }),
    decreases left,
{
    if left > 0 {
        let fewer = (left - 1) as nat;
        if next == 0 || next == 43 || next == 60 {
            if at + 1 < b.len() {
                assert(b[at] == c[at + by] && b[at + 1] == c[at + 1 + by]);
                let to = at + (b[at + 1] + 1) * 8;
                lemma_headers_shift(b, c, b[at], to, by, fewer);
            }
        } else if next == 44 {
            if at + 3 < b.len() {
                assert(b[at] == c[at + by] && b[at + 2] == c[at + 2 + by] && b[at + 3] == c[at + 3
                    + by]);
                lemma_headers_shift(b, c, b[at], at + 8, by, fewer);
            }
        }
    }
}

/// An `IPv6` extension header in front changes nothing: hop-by-hop options,
/// routing and destination options, with the length that they give, and the
/// header of a first fragment, which is eight bytes. Seven of them may follow.
pub proof fn law_an_extension_header_is_stepped_over(packet: Seq<u8>, kind: u8, header: Seq<u8>)
    requires
        packet.len() >= 40,
        v6_datagram(packet) is Some,
        extensions(packet, packet[6], 40, 8).len() < 8,
        header.len() >= 8,
        header[0] == packet[6],
        kind == 0 || kind == 43 || kind == 60 || kind == 44,
        kind != 44 ==> header.len() == 8 * (header[1] + 1),
        kind == 44 ==> header.len() == 8 && header[2] == 0 && header[3] < 8,
    ensures
        v6_datagram(packet.take(40).update(6, kind) + header + packet.skip(40)) == v6_datagram(
            packet,
        ),
{
    let c = packet.take(40).update(6, kind) + header + packet.skip(40);
    let by = header.len() as int;
    assert forall|i: int| 40 <= i < packet.len() implies #[trigger] packet[i] == c[i + by] by {
        assert(packet.skip(40)[i - 40] == packet[i]);
    }
    lemma_fewer_headers(packet, packet[6], 40, 8);
    lemma_headers_shift(packet, c, packet[6], 40, by, 7);
    assert(c[6] == kind && c[0] == packet[0]);
    assert(forall|i: int| 0 <= i < by ==> c[40 + i] == #[trigger] header[i]);
    assert(c[40] == header[0] && c[41] == header[1] && c[42] == header[2] && c[43] == header[3]);
    assert(behind_extensions(c, kind, 40, 8) == behind_extensions(c, packet[6], 40 + by, 7));
    assert(forall|i: int| 8 <= i < 40 ==> c[i] == #[trigger] packet[i]);
    let at = (behind_extensions(packet, packet[6], 40, 8)->0).1;
    lemma_walk_goes_forward(packet, packet[6], 40, 8);
    assert(c.skip(at + by) =~= packet.skip(at));
    assert(be128_at(c, 8) == be128_at(packet, 8));
    assert(be128_at(c, 24) == be128_at(packet, 24));
}

proof fn lemma_walk_goes_forward(b: Seq<u8>, next: u8, at: int, left: nat)
    ensures
        behind_extensions(b, next, at, left) matches Some((_, to)) ==> to >= at,
    decreases left,
{
    if left > 0 {
        let fewer = (left - 1) as nat;
        if next == 0 || next == 43 || next == 60 {
            lemma_walk_goes_forward(b, b[at], at + (b[at + 1] + 1) * 8, fewer);
        } else if next == 44 {
            lemma_walk_goes_forward(b, b[at], at + 8, fewer);
        }
    }
}

/// The walk over extension headers is bounded: behind eight of them, a ninth is
/// no UDP, and the packet is nothing.
pub proof fn law_nine_extension_headers_are_too_many(frame: Seq<u8>, packet: Seq<u8>)
    requires
        behind_tags(frame, 12, 2) == Some((0x86DDnat, packet)),
        extensions(packet, packet[6], 40, 9).len() == 9,
    ensures
        reading(frame) is None,
{
    lemma_one_header_more(packet, packet[6], 40, 8);
}

proof fn lemma_one_header_more(b: Seq<u8>, next: u8, at: int, left: nat)
    requires
        extensions(b, next, at, left + 1).len() == left + 1,
    ensures
        behind_extensions(b, next, at, left) matches Some((n, _)) ==> n == 0 || n == 43 || n == 60
            || n == 44,
    decreases left,
{
    if left > 0 {
        let fewer = (left - 1) as nat;
        if next == 44 {
            lemma_one_header_more(b, b[at], at + 8, fewer);
        } else {
            lemma_one_header_more(b, b[at], at + (b[at + 1] + 1) * 8, fewer);
        }
    }
}

// What each operation gives its caller.

/// The gi-address of a payload on the `DHCPv4` ports is its bytes 24 to 27,
/// where they are there and not all nought; and no other payload has one.
pub proof fn law_what_giaddr_gives(sport: u16, dport: u16, body: &[u8], r: Option<Ipv4Addr>)
    requires
        call_ensures(giaddr, (sport, dport, body), r),
    ensures
        ({
            let dhcp4 = (sport == 67 || sport == 68) && (dport == 67 || dport == 68);
            let b = body@;
            let zero = b[24] == 0 && b[25] == 0 && b[26] == 0 && b[27] == 0;
            &&& r is Some <==> dhcp4 && b.len() >= 28 && !zero
            &&& r matches Some(gi) ==> gi.bits == b[24] * 0x100_0000 + b[25] * 0x1_0000 + b[26]
                * 0x100 + b[27]
        }),
{
}

/// Two payloads on those ports that have the same four bytes there have the same
/// gi-address, whatever else they hold: a reply names the relay that its
/// request came through.
pub proof fn law_giaddr_reads_nothing_else(
    sport: u16,
    dport: u16,
    body: &[u8],
    r: Option<Ipv4Addr>,
    other_sport: u16,
    other_dport: u16,
    other: &[u8],
    s: Option<Ipv4Addr>,
)
    requires
        (sport == 67 || sport == 68) && (dport == 67 || dport == 68),
        (other_sport == 67 || other_sport == 68) && (other_dport == 67 || other_dport == 68),
        body@.len() >= 28,
        other@.len() >= 28,
        forall|i: int| 24 <= i < 28 ==> #[trigger] body@[i] == other@[i],
        call_ensures(giaddr, (sport, dport, body), r),
        call_ensures(giaddr, (other_sport, other_dport, other), s),
    ensures
        r == s,
{
}

/// The transaction is the payload's bytes 4 to 7 on the `DHCPv4` ports and its
/// bytes 1 to 3 on the `DHCPv6` ports, and there is none anywhere else.
pub proof fn law_what_xid_gives(sport: u16, dport: u16, body: &[u8], r: Option<u32>)
    requires
        call_ensures(xid, (sport, dport, body), r),
    ensures
        ({
            let four = (sport == 67 || sport == 68) && (dport == 67 || dport == 68);
            let six = (sport == 546 || sport == 547) && (dport == 546 || dport == 547);
            let b = body@;
            &&& r is Some <==> four && b.len() >= 8 || six && b.len() >= 4
            &&& four && r is Some ==> r->0 == b[4] * 0x100_0000 + b[5] * 0x1_0000 + b[6] * 0x100
                + b[7]
            &&& six && r is Some ==> r->0 == b[1] * 0x1_0000 + b[2] * 0x100 + b[3]
        }),
{
}

/// What a payload is follows from its ports and its opcode, or its first byte.
pub proof fn law_what_classify_gives(sport: u16, dport: u16, body: &[u8], r: Option<Kind>)
    requires
        call_ensures(classify, (sport, dport, body), r),
    ensures
        ({
            let b = body@;
            let tftp = sport == 69 || dport == 69;
            let four = (sport == 67 || sport == 68) && (dport == 67 || dport == 68);
            let six = (sport == 546 || sport == 547) && (dport == 546 || dport == 547);
            let down = (sport == 67 || sport == 547) && (dport == 68 || dport == 546);
            let answers = if b.len() == 0 {
                down
            } else if four {
                b[0] == 2
            } else {
                b[0] == 2 || b[0] == 7 || b[0] == 10 || b[0] == 13
            };
            &&& tftp ==> {
                &&& r == Some(Kind::TftpRequest) <==> b.len() >= 2 && b[0] == 0 && b[1] == 1
                &&& r == Some(Kind::TftpReply) <==> b.len() >= 2 && b[0] == 0 && (b[1] == 3 || b[1]
                    == 5 || b[1] == 6)
                &&& r != Some(Kind::ClientRequest)
                &&& r != Some(Kind::ServerReply)
            }
            &&& !tftp && (four || six) ==> r == (if answers {
                Some(Kind::ServerReply)
            } else {
                Some(Kind::ClientRequest)
            })
            &&& !tftp && !four && !six ==> r is None
        }),
{
}

} // verus!
