use docsis_monitor::addr::{IpAddr, Ipv4Addr, Ipv6Addr};
use docsis_monitor::packet::{
    classify, giaddr, read, xid, Kind, DHCP6_CLIENT, DHCP6_SERVER, DHCP_CLIENT, DHCP_SERVER, TFTP,
};

/// A frame whose payload opens with `op`, which is what decides a `DHCPv4`
/// packet's direction.
fn v4op(op: u8, sport: u16, dport: u16, src: [u8; 4], dst: [u8; 4], payload: usize) -> Vec<u8> {
    let mut f = v4(sport, dport, src, dst, payload);
    if payload > 0 {
        // Zeroed, not filler: a BOOTP header is mostly zero.
        let at = f.len() - payload;
        for b in &mut f[at..] {
            *b = 0;
        }
        f[at] = op;
    }
    f
}

/// Builds a frame: Ethernet, `IPv4`, UDP, and filler.
fn v4(sport: u16, dport: u16, src: [u8; 4], dst: [u8; 4], payload: usize) -> Vec<u8> {
    let mut f = vec![0u8; 12];
    f.extend([0x08, 0x00]);
    let mut ip = vec![0x45, 0x00];
    ip.extend((20u16 + 8 + u16::try_from(payload).unwrap()).to_be_bytes());
    ip.extend([0, 0, 0, 0]);
    ip.extend([64, 17]);
    ip.extend([0, 0]);
    ip.extend(src);
    ip.extend(dst);
    ip.extend(sport.to_be_bytes());
    ip.extend(dport.to_be_bytes());
    ip.extend((8u16 + u16::try_from(payload).unwrap()).to_be_bytes());
    ip.extend([0, 0]);
    ip.extend(std::iter::repeat_n(0xAB, payload));
    f.extend(ip);
    f
}

/// A TFTP frame whose payload opens with `opcode`.
fn tftp(opcode: u16, sport: u16, dport: u16, src: [u8; 4], dst: [u8; 4]) -> Vec<u8> {
    let mut f = v4(sport, dport, src, dst, 40);
    let at = f.len() - 40;
    f[at..at + 2].copy_from_slice(&opcode.to_be_bytes());
    f
}

fn ip4(a: [u8; 4]) -> IpAddr {
    IpAddr::V4(Ipv4Addr::new(a[0], a[1], a[2], a[3]))
}

#[test]
fn a_relayed_discover_reads_as_a_client_request() {
    let f = v4op(1, DHCP_SERVER, DHCP_SERVER, [10, 0, 0, 1], [10, 0, 0, 9], 300);
    let seen = read(&f).expect("a DHCP packet");
    assert_eq!(seen.kind, Kind::ClientRequest);
    assert_eq!(seen.src, ip4([10, 0, 0, 1]));
    assert_eq!(seen.dst, ip4([10, 0, 0, 9]));
    assert_eq!(seen.bytes, 300);
}

#[test]
fn an_offer_relayed_back_on_the_same_ports_is_a_reply() {
    let f = v4op(2, DHCP_SERVER, DHCP_SERVER, [10, 0, 0, 9], [10, 0, 0, 1], 300);
    assert_eq!(
        read(&f).expect("a DHCP packet").kind,
        Kind::ServerReply,
        "op=2 is a BOOTREPLY whichever ports carried it"
    );
}

#[test]
fn an_offer_straight_to_a_client_is_also_a_reply() {
    let f = v4op(2, DHCP_SERVER, DHCP_CLIENT, [10, 0, 0, 9], [10, 0, 0, 1], 300);
    assert_eq!(read(&f).expect("a DHCP packet").kind, Kind::ServerReply);
}

#[test]
fn dhcpv6_directions_come_from_the_message_type() {
    for (t, want) in [
        (1u8, Kind::ClientRequest), // SOLICIT
        (2, Kind::ServerReply),     // ADVERTISE
        (3, Kind::ClientRequest),   // REQUEST
        (7, Kind::ServerReply),     // REPLY
        (10, Kind::ServerReply),    // RECONFIGURE
        (12, Kind::ClientRequest),  // RELAY-FORW
        (13, Kind::ServerReply),    // RELAY-REPL
    ] {
        assert_eq!(
            classify(DHCP6_SERVER, DHCP6_SERVER, &[t]),
            Some(want),
            "DHCPv6 message type {t}"
        );
    }
}

#[test]
fn with_no_payload_left_the_ports_are_all_there_is() {
    assert_eq!(classify(DHCP_SERVER, DHCP_CLIENT, &[]), Some(Kind::ServerReply));
    assert_eq!(classify(DHCP_CLIENT, DHCP_SERVER, &[]), Some(Kind::ClientRequest));
}

#[test]
fn a_whole_tftp_fetch_is_one_read_and_one_send() {
    let rrq = tftp(1, 50_000, TFTP, [10, 100, 0, 19], [192, 168, 122, 93]);
    let data = tftp(3, TFTP, 50_000, [192, 168, 122, 93], [10, 100, 0, 19]);
    let ack = tftp(4, 50_000, TFTP, [10, 100, 0, 19], [192, 168, 122, 93]);

    assert_eq!(read(&rrq).expect("a read request").kind, Kind::TftpRequest);
    assert_eq!(read(&data).expect("a data block").kind, Kind::TftpReply);
    assert!(
        read(&ack).is_none(),
        "an acknowledgement is flow control, not a modem asking for a file"
    );

    // An error from the server is an answer, and the one worth seeing.
    let err = tftp(5, TFTP, 50_000, [192, 168, 122, 93], [10, 100, 0, 19]);
    assert_eq!(read(&err).expect("an error").kind, Kind::TftpReply);
    // And an option acknowledgement, which a modem asking for a blksize gets
    // first.
    let oack = tftp(6, TFTP, 50_000, [192, 168, 122, 93], [10, 100, 0, 19]);
    assert_eq!(read(&oack).expect("an OACK").kind, Kind::TftpReply);
}

#[test]
fn a_request_and_its_answer_share_a_transaction_id() {
    let mut req = v4op(1, DHCP_SERVER, DHCP_SERVER, [10, 0, 0, 1], [10, 0, 0, 9], 300);
    let at = req.len() - 300 + 4;
    req[at..at + 4].copy_from_slice(&[0xDE, 0xAD, 0xBE, 0xEF]);
    let mut rep = v4op(2, DHCP_SERVER, DHCP_SERVER, [10, 0, 0, 9], [10, 0, 0, 1], 300);
    rep[at..at + 4].copy_from_slice(&[0xDE, 0xAD, 0xBE, 0xEF]);

    assert_eq!(read(&req).expect("a request").xid, Some(0xDEAD_BEEF));
    assert_eq!(read(&rep).expect("a reply").xid, Some(0xDEAD_BEEF));
    // TFTP has none, and must not be given one from whatever bytes happen to
    // sit at that offset.
    let t = tftp(1, 50_000, TFTP, [10, 0, 0, 1], [10, 0, 0, 9]);
    assert_eq!(read(&t).expect("a TFTP packet").xid, None);
}

#[test]
fn dhcpv6_transaction_ids_are_three_bytes_after_the_message_type() {
    assert_eq!(
        xid(DHCP6_CLIENT, DHCP6_SERVER, &[1, 0x11, 0x22, 0x33]),
        Some(0x0011_2233)
    );
}

#[test]
fn a_relayed_request_carries_its_gi_address() {
    let mut f = v4op(1, DHCP_SERVER, DHCP_SERVER, [10, 0, 0, 1], [10, 0, 0, 9], 300);
    let at = f.len() - 300 + 24;
    f[at..at + 4].copy_from_slice(&[10, 100, 0, 1]);
    let seen = read(&f).expect("a DHCP packet");
    assert_eq!(seen.gi, Some(Ipv4Addr::new(10, 100, 0, 1)));
}

#[test]
fn an_unrelayed_request_has_no_gi_address() {
    let f = v4op(1, DHCP_CLIENT, DHCP_SERVER, [10, 0, 0, 1], [10, 0, 0, 9], 300);
    assert_eq!(read(&f).expect("a DHCP packet").gi, None);
    // And TFTP has no such field at all.
    let t = tftp(1, 50_000, TFTP, [10, 0, 0, 1], [10, 0, 0, 9]);
    assert_eq!(read(&t).expect("a TFTP packet").gi, None);
}

#[test]
fn dhcpv6_counts_the_same_way() {
    let mut f = vec![0u8; 12];
    f.extend([0x86, 0xDD]);
    let mut ip = vec![0x60, 0, 0, 0];
    ip.extend([0, 16]);
    ip.extend([17, 64]);
    ip.extend([0x20, 0x01].iter().copied().chain(std::iter::repeat_n(0, 14)));
    ip.extend([0x20, 0x01].iter().copied().chain(std::iter::repeat_n(0, 13)).chain([9]));
    ip.extend(DHCP6_CLIENT.to_be_bytes());
    ip.extend(DHCP6_SERVER.to_be_bytes());
    ip.extend(16u16.to_be_bytes());
    ip.extend([0, 0]);
    ip.extend([0u8; 8]);
    f.extend(ip);
    let seen = read(&f).expect("a DHCPv6 packet");
    assert_eq!(seen.kind, Kind::ClientRequest);
    assert_eq!(seen.bytes, 8);
    assert_eq!(
        seen.src,
        IpAddr::V6(Ipv6Addr { bits: 0x2001_0000_0000_0000_0000_0000_0000_0000 })
    );
    assert_eq!(
        seen.dst,
        IpAddr::V6(Ipv6Addr { bits: 0x2001_0000_0000_0000_0000_0000_0000_0009 })
    );
}

#[test]
fn a_vlan_tag_is_stepped_over() {
    let plain = v4(DHCP_SERVER, DHCP_SERVER, [10, 0, 0, 1], [10, 0, 0, 9], 40);
    let mut tagged = plain[..12].to_vec();
    tagged.extend([0x81, 0x00, 0x00, 0x65]); // 802.1Q, VLAN 101
    tagged.extend(&plain[12..]);
    assert_eq!(read(&tagged).expect("still DHCP").kind, Kind::ClientRequest);
    assert_eq!(read(&tagged), read(&plain));

    // And a wholesale hand-off arrives with two.
    let mut double = plain[..12].to_vec();
    double.extend([0x88, 0xA8, 0x00, 0x65]); // 802.1ad outer
    double.extend([0x81, 0x00, 0x00, 0x0A]); // 802.1Q inner
    double.extend(&plain[12..]);
    assert_eq!(read(&double).expect("still DHCP").kind, Kind::ClientRequest);
    assert_eq!(read(&double), read(&plain));
}

#[test]
fn everything_else_on_the_wire_is_ignored() {
    // Not UDP.
    let mut tcp = v4(DHCP_SERVER, DHCP_SERVER, [10, 0, 0, 1], [10, 0, 0, 9], 40);
    tcp[14 + 9] = 6;
    assert!(read(&tcp).is_none());
    // UDP, but nothing to do with provisioning.
    assert!(read(&v4(53, 53, [10, 0, 0, 1], [10, 0, 0, 9], 40)).is_none());
    // Not IP at all: ARP.
    let mut arp = vec![0u8; 12];
    arp.extend([0x08, 0x06]);
    arp.extend([0u8; 28]);
    assert!(read(&arp).is_none());
}

#[test]
fn a_truncated_or_lying_frame_is_refused_rather_than_panicking() {
    let full = v4(DHCP_SERVER, DHCP_SERVER, [10, 0, 0, 1], [10, 0, 0, 9], 40);
    for cut in 0..full.len() {
        let _ = read(&full[..cut]); // must not panic
    }
    assert!(read(&[]).is_none());

    // An IPv4 header claiming a length below the twenty bytes it must have.
    let mut short_ihl = full.clone();
    short_ihl[14] = 0x43;
    assert!(read(&short_ihl).is_none());

    // A UDP length below its own header.
    let mut short_udp = full.clone();
    short_udp[14 + 20 + 4] = 0;
    short_udp[14 + 20 + 5] = 4;
    assert!(read(&short_udp).is_none());

    // A frame claiming twenty VLAN tags is not a frame.
    let mut many = full[..12].to_vec();
    for _ in 0..20 {
        many.extend([0x81, 0x00, 0x00, 0x65]);
    }
    many.extend(&full[12..]);
    assert!(read(&many).is_none(), "the tag walk is bounded");
}

#[test]
fn a_later_fragment_is_not_counted_again() {
    let mut f = v4(DHCP_SERVER, DHCP_SERVER, [10, 0, 0, 1], [10, 0, 0, 9], 40);
    f[14 + 6] = 0x00;
    f[14 + 7] = 0x20; // fragment offset 32 eight-octet units
    assert!(read(&f).is_none());
}

#[test]
fn an_ipv6_header_chain_cannot_loop_for_ever() {
    let mut f = vec![0u8; 12];
    f.extend([0x86, 0xDD]);
    let mut ip = vec![0x60, 0, 0, 0, 0, 64, 0, 64]; // next header 0: hop-by-hop
    ip.extend([0u8; 32]); // the two addresses
    for _ in 0..40 {
        ip.extend([0, 0]); // next header 0 again, length 0
        ip.extend([0u8; 6]);
    }
    f.extend(ip);
    let _ = read(&f); // must return, and must not panic
}

#[test]
fn the_ports_say_whether_and_the_message_says_which_way() {
    // Whether.
    assert_eq!(classify(41_234, 69, b"\x00\x01"), Some(Kind::TftpRequest));
    assert_eq!(classify(69, 41_234, b"\x00\x03"), Some(Kind::TftpReply));
    assert_eq!(classify(53, 53, &[1]), None, "DNS is not provisioning");
    assert_eq!(classify(67, 5000, &[1]), None, "nor is 67 to anywhere");

    // Which way, on the pair of ports a relay uses for both.
    assert_eq!(classify(67, 67, &[1]), Some(Kind::ClientRequest));
    assert_eq!(classify(67, 67, &[2]), Some(Kind::ServerReply));
    assert_eq!(classify(68, 67, &[1]), Some(Kind::ClientRequest));
    assert_eq!(classify(67, 68, &[2]), Some(Kind::ServerReply));
}

#[test]
fn a_read_request_is_the_only_tftp_request() {
    for opcode in [0u16, 2, 4, 7, 0x0100] {
        assert_eq!(classify(50_000, TFTP, &opcode.to_be_bytes()), None, "opcode {opcode}");
    }
    assert_eq!(classify(50_000, TFTP, &[0]), None, "half an opcode");
    assert_eq!(classify(50_000, TFTP, &[]), None);
}

/// A `DHCPv6` reply behind two extension headers, the second of which is a
/// fragment header with these bits for its offset and flags.
fn fragment6(place: u16) -> Vec<u8> {
    let mut f = vec![0u8; 12];
    f.extend([0x86, 0xDD]);
    let mut ip = vec![0x60, 0, 0, 0, 0, 40, 0, 64]; // hop-by-hop first
    ip.extend([0u8; 32]);
    ip.extend([44, 1, 0, 0, 0, 0, 0, 0]); // sixteen bytes, then a fragment header
    ip.extend([0u8; 8]);
    ip.extend([17, 0]); // and then UDP
    ip.extend(place.to_be_bytes());
    ip.extend([0u8; 4]);
    ip.extend(DHCP6_SERVER.to_be_bytes());
    ip.extend(DHCP6_CLIENT.to_be_bytes());
    ip.extend(12u16.to_be_bytes());
    ip.extend([0, 0, 7, 1, 2, 3]);
    f.extend(ip);
    f
}

#[test]
fn a_later_ipv6_fragment_is_not_counted_either() {
    assert!(read(&fragment6(0)).is_some());
    assert_eq!(read(&fragment6(1)), read(&fragment6(0)), "the first, with more to come");
    assert!(read(&fragment6(6)).is_some(), "two bits without a meaning");
    for place in [8u16, 9, 0x0100, 0x8000, 0xFFFF] {
        assert_eq!(read(&fragment6(place)), None, "{place:#x}");
    }
    let f = fragment6(0);
    for len in 0..f.len() - 6 {
        read(&f[..len]);
    }
    assert_eq!(read(&f[..14 + 40 + 16 + 3]), None, "cut within the fragment header");
}

#[test]
fn extension_headers_are_followed_to_the_udp_header() {
    let f = fragment6(0);
    let seen = read(&f).expect("a DHCPv6 reply");
    assert_eq!(seen.kind, Kind::ServerReply);
    assert_eq!(seen.xid, Some(0x01_02_03));
    assert_eq!(seen.bytes, 4);
    assert_eq!(seen.gi, None);
}

#[test]
fn a_truncated_payload_has_neither_relay_nor_transaction() {
    assert_eq!(giaddr(67, 67, &[1; 27]), None);
    assert_eq!(giaddr(67, 67, &[1; 28]), Some(Ipv4Addr::new(1, 1, 1, 1)));
    assert_eq!(giaddr(547, 547, &[1; 28]), None, "only DHCPv4 has one");
    assert_eq!(xid(67, 67, &[1; 7]), None);
    assert_eq!(xid(547, 546, &[1; 3]), None);
    assert_eq!(xid(53, 53, &[1; 40]), None);
}
