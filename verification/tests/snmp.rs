use docsis_monitor::snmp::{
    base128, encode, integer, length, octet_string, oid, tlv, trap_oid, unsigned, uptime_oid,
    varbind, Trap, Value,
};

fn trap() -> Trap {
    Trap {
        uptime_ticks: 12_345,
        which: 1,
        bindings: vec![
            (Trap::field(1), Value::Str("eth0".to_owned())),
            (Trap::field(2), Value::Count(0)),
        ],
    }
}

#[test]
fn a_short_length_is_one_byte_and_a_long_one_says_how_many() {
    assert_eq!(length(0), vec![0x00]);
    assert_eq!(length(127), vec![0x7F]);
    assert_eq!(length(128), vec![0x81, 0x80]);
    assert_eq!(length(300), vec![0x82, 0x01, 0x2C]);
}

#[test]
fn an_oid_packs_its_first_two_arcs_and_base128s_the_rest() {
    assert_eq!(oid(&[1, 3, 6, 1]), vec![0x06, 0x03, 0x2B, 0x06, 0x01]);
    let big = oid(&[1, 3, 6, 1, 4, 1, 99_999]);
    assert_eq!(
        big,
        vec![0x06, 0x08, 0x2B, 0x06, 0x01, 0x04, 0x01, 0x86, 0x8D, 0x1F]
    );
}

#[test]
fn an_integer_uses_the_fewest_bytes_that_keep_its_sign() {
    assert_eq!(integer(0), vec![0x02, 0x01, 0x00]);
    assert_eq!(integer(127), vec![0x02, 0x01, 0x7F]);
    assert_eq!(integer(128), vec![0x02, 0x02, 0x00, 0x80]);
    assert_eq!(integer(-1), vec![0x02, 0x01, 0xFF]);
    assert_eq!(integer(-129), vec![0x02, 0x02, 0xFF, 0x7F]);
}

#[test]
fn a_counter_with_its_top_bit_set_keeps_a_leading_zero() {
    assert_eq!(unsigned(0x41, 0), vec![0x41, 0x01, 0x00]);
    assert_eq!(unsigned(0x41, 200), vec![0x41, 0x02, 0x00, 0xC8]);
    assert_eq!(
        unsigned(0x41, 3_000_000_000),
        vec![0x41, 0x05, 0x00, 0xB2, 0xD0, 0x5E, 0x00]
    );
}

#[test]
fn the_message_opens_the_way_a_v2c_trap_must() {
    let d = encode("public", &trap());
    assert_eq!(d[0], 0x30, "a sequence");
    // version 1 (meaning v2c), then the community.
    let after_len = 2 + usize::from(d[1] & 0x80 != 0) * usize::from(d[1] & 0x7F);
    assert_eq!(&d[after_len..after_len + 3], &[0x02, 0x01, 0x01]);
    assert!(
        d.windows(6).any(|w| w == b"public"),
        "the community is in the datagram"
    );
    assert!(
        d.windows(1).any(|w| w == [0xA7]),
        "the PDU is tagged SNMPv2-Trap"
    );
    // sysUpTime.0 then snmpTrapOID.0.
    let up = oid(&uptime_oid());
    let which = oid(&trap_oid());
    let at_up = find(&d, &up).expect("sysUpTime.0 is in the datagram");
    let at_which = find(&d, &which).expect("snmpTrapOID.0 is in the datagram");
    assert!(at_up < at_which, "sysUpTime.0 must come first");
}

#[test]
fn the_trap_oid_is_this_programs_arc_plus_its_number() {
    assert_eq!(trap().oid(), vec![1, 3, 6, 1, 4, 1, 99_999, 1]);
    assert_eq!(Trap::field(2), vec![1, 3, 6, 1, 4, 1, 99_999, 1, 2]);
}

#[test]
fn a_trap_long_enough_to_need_a_long_length_still_encodes() {
    let mut t = trap();
    for i in 0..20 {
        t.bindings
            .push((Trap::field(i), Value::Str("a rather long value".to_owned())));
    }
    let d = encode("public", &t);
    assert!(d.len() > 300, "got {} bytes", d.len());
    assert_eq!(d[1] & 0x80, 0x80, "the outer length is in long form");
    // The outer length has to describe the rest exactly, or a receiver stops
    // reading in the middle.
    let n = usize::from(d[1] & 0x7F);
    let mut declared = 0usize;
    for b in &d[2..2 + n] {
        declared = declared * 256 + usize::from(*b);
    }
    assert_eq!(declared, d.len() - 2 - n);
}

/// The datagram itself, taken apart by a reader written from the other side.
#[test]
fn a_trap_goes_over_a_socket_and_comes_back_readable() {
    let mut t = trap();
    t.bindings
        .push((Trap::field(6), Value::Count(3_000_000_000)));
    let got = encode("s3cret", &t);
    let got = got.as_slice();

    // Walk it as a receiver would: sequence, version, community, PDU.
    let (tag, body) = next(got).expect("a TLV");
    assert_eq!(tag, 0x30, "the message is a sequence");
    let (tag, version) = next(body).expect("the version");
    assert_eq!((tag, version), (0x02, [1].as_slice()), "v2c is version 1");
    let rest = &body[2 + version.len()..];
    let (tag, community) = next(rest).expect("the community");
    assert_eq!(tag, 0x04);
    assert_eq!(community, b"s3cret", "the community survived the wire");
    let rest = &rest[2 + community.len()..];
    let (tag, _) = next(rest).expect("the PDU");
    assert_eq!(tag, 0xA7, "an SNMPv2-Trap-PDU");

    // And the counter that needed a leading zero is still three billion.
    let wanted = unsigned(0x41, 3_000_000_000);
    assert!(
        find(got, &wanted).is_some(),
        "a Counter32 of three billion is not in the datagram as encoded"
    );
}

/// Reads one TLV: its tag and its body. Written from the receiver's side
/// rather than reusing anything above, so a mistake shared by both is not a
/// mistake this test agrees with.
fn next(b: &[u8]) -> Option<(u8, &[u8])> {
    let tag = *b.first()?;
    let first = *b.get(1)?;
    let (len, at) = if first & 0x80 == 0 {
        (usize::from(first), 2)
    } else {
        let n = usize::from(first & 0x7F);
        let mut len = 0usize;
        for i in 0..n {
            len = len * 256 + usize::from(*b.get(2 + i)?);
        }
        (len, 2 + n)
    };
    Some((tag, b.get(at..at + len)?))
}

fn find(hay: &[u8], needle: &[u8]) -> Option<usize> {
    hay.windows(needle.len()).position(|w| w == needle)
}

#[test]
fn the_smallest_trap_is_these_bytes() {
    let t = Trap { uptime_ticks: 200, which: 3, bindings: vec![] };
    let d = encode("p", &t);
    let expected: Vec<u8> = vec![
        0x30, 0x3D, // the message
        0x02, 0x01, 0x01, // v2c
        0x04, 0x01, b'p', // the community
        0xA7, 0x35, // the PDU
        0x02, 0x02, 0x00, 0xC8, // request-id
        0x02, 0x01, 0x00, // error-status
        0x02, 0x01, 0x00, // error-index
        0x30, 0x29, // the varbinds
        0x30, 0x0E, 0x06, 0x08, 0x2B, 6, 1, 2, 1, 1, 3, 0, 0x43, 0x02, 0x00, 0xC8, // sysUpTime.0
        0x30, 0x17, 0x06, 0x0A, 0x2B, 6, 1, 6, 3, 1, 1, 4, 1, 0, // snmpTrapOID.0
        0x06, 0x09, 0x2B, 6, 1, 4, 1, 0x86, 0x8D, 0x1F, 3,
    ];
    assert_eq!(d, expected);
}

#[test]
fn the_largest_values_keep_their_form() {
    assert_eq!(integer(i64::MAX).len(), 10);
    assert_eq!(
        integer(i64::MIN),
        vec![0x02, 0x08, 0x80, 0, 0, 0, 0, 0, 0, 0]
    );
    assert_eq!(integer(-128), vec![0x02, 0x01, 0x80]);
    // A counter is thirty-two bits, and stays at its largest beyond them.
    assert_eq!(unsigned(0x43, u64::MAX), unsigned(0x43, u64::from(u32::MAX)));
    assert_eq!(unsigned(0x43, u64::MAX), vec![0x43, 5, 0, 255, 255, 255, 255]);
    assert_eq!(base128(0), vec![0]);
    assert_eq!(base128(127), vec![0x7F]);
    assert_eq!(base128(128), vec![0x81, 0x00]);
    assert_eq!(base128(u64::MAX), vec![0x81, 255, 255, 255, 255, 255, 255, 255, 255, 0x7F]);
    assert_eq!(length(65_536), vec![0x83, 0x01, 0, 0]);
}

#[test]
fn a_varbind_is_a_name_and_a_value() {
    assert_eq!(octet_string(b"ab"), vec![0x04, 2, b'a', b'b']);
    assert_eq!(tlv(0x30, &[1, 2]), vec![0x30, 2, 1, 2]);
    assert_eq!(
        varbind(&[1, 3, 6], &Value::Str("ab".to_owned())),
        vec![0x30, 8, 0x06, 2, 0x2B, 6, 0x04, 2, b'a', b'b']
    );
    assert_eq!(
        varbind(&[1, 3, 6], &Value::Count(7)),
        vec![0x30, 7, 0x06, 2, 0x2B, 6, 0x41, 1, 7]
    );
    assert_eq!(
        varbind(&[1, 3, 6], &Value::Ticks(7)),
        vec![0x30, 7, 0x06, 2, 0x2B, 6, 0x43, 1, 7]
    );
    assert_eq!(
        varbind(&[1, 3, 6], &Value::Oid(vec![1, 3])),
        vec![0x30, 7, 0x06, 2, 0x2B, 6, 0x06, 1, 0x2B]
    );
    assert_eq!(oid(&[]), vec![0x06, 1, 0]);
    assert_eq!(oid(&[2]), vec![0x06, 1, 80]);
}
