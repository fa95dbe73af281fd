use docsis_monitor::addr::{IpAddr, Ipv4Addr};
use docsis_monitor::counters::{Counters, Dest, Flow, Window};
use docsis_monitor::packet::Kind;

fn ip(last: u8) -> IpAddr {
    IpAddr::V4(Ipv4Addr::new(10, 0, 0, last))
}

/// A request flowing from a relay to the server, through one gi-address.
fn to_server(from: u8, gi: u8) -> Flow {
    Flow { src: ip(from), dst: ip(9), gi: Some(Ipv4Addr::new(10, 100, 0, gi)) }
}

fn ratio(w: Window) -> f64 {
    let f = w.answered();
    f.num as f64 / f.den as f64
}

#[test]
fn a_packet_lands_in_the_window_and_in_the_total() {
    let mut c = Counters::new(300);
    c.add(Kind::ClientRequest, to_server(1, 1), 1000);
    c.add(Kind::ServerReply, to_server(2, 2), 1000);
    assert_eq!(
        c.window(1000),
        Window { requests: 1, replies: 1, ..Window::default() }
    );
    assert_eq!(c.total().requests, 1);
}

#[test]
fn what_falls_out_of_the_window_stops_counting() {
    let mut c = Counters::new(60);
    c.add(Kind::ClientRequest, to_server(1, 1), 1000);
    assert_eq!(c.window(1030).requests, 1, "still inside the window");
    assert_eq!(c.window(1100).requests, 0, "past it");
    assert_eq!(c.total().requests, 1, "the total does not forget");
}

#[test]
fn silence_empties_the_window_without_a_single_packet() {
    let mut c = Counters::new(60);
    for t in 0..10 {
        c.add(Kind::ClientRequest, to_server(1, 1), 1000 + t);
    }
    assert_eq!(c.window(1009).requests, 10);
    assert_eq!(c.window(2000).requests, 0, "nothing arrived to expire it");
    assert!(c.by_flow(2000).is_empty());
}

#[test]
fn the_answered_fraction_is_replies_over_requests() {
    let w = Window { requests: 4, replies: 3, ..Window::default() };
    assert!((ratio(w) - 0.75).abs() < 1e-9);
    // Nothing asked is not "nothing answered".
    assert!((ratio(Window::default()) - 0.0).abs() < 1e-9);
}

#[test]
fn more_replies_than_requests_is_reported_not_clamped() {
    let w = Window { requests: 2, replies: 8, ..Window::default() };
    assert!((ratio(w) - 4.0).abs() < 1e-9);
}

#[test]
fn flows_are_listed_busiest_first() {
    let mut c = Counters::new(300);
    for _ in 0..3 {
        c.add(Kind::ClientRequest, to_server(1, 1), 1000);
    }
    for _ in 0..9 {
        c.add(Kind::ClientRequest, to_server(2, 2), 1000);
    }
    c.add(Kind::ClientRequest, to_server(3, 3), 1000);
    let got: Vec<Flow> = c.by_flow(1000).into_iter().map(|(f, _)| f).collect();
    assert_eq!(got, vec![to_server(2, 2), to_server(1, 1), to_server(3, 3)]);
}

#[test]
fn a_flow_that_goes_quiet_leaves_the_list() {
    let mut c = Counters::new(60);
    c.add(Kind::ClientRequest, to_server(1, 1), 1000);
    c.add(Kind::ClientRequest, to_server(2, 2), 1050);
    let still: Vec<Flow> = c.by_flow(1080).into_iter().map(|(f, _)| f).collect();
    assert_eq!(
        still,
        vec![to_server(2, 2)],
        "the flow from 10.0.0.1 has not been seen for 80s"
    );
}

#[test]
fn a_long_quiet_run_does_not_accumulate() {
    let mut c = Counters::new(60);
    for t in 0..5_000 {
        c.add(Kind::ClientRequest, to_server(1, 1), 1000 + t);
    }
    assert!(
        c.buckets() <= 61,
        "kept {} buckets for a 60s window",
        c.buckets()
    );
}

#[test]
fn a_flow_counts_over_the_same_window() {
    let mut c = Counters::new(60);
    c.add(Kind::ClientRequest, to_server(1, 1), 1000);
    c.add(Kind::ClientRequest, to_server(1, 1), 1050);
    c.add(Kind::ServerReply, to_server(1, 1), 1050);
    let rows = c.by_flow(1070);
    assert_eq!(rows.len(), 1);
    assert_eq!(rows[0].1.counts, [1, 1, 0, 0], "the first is out of the window");
    assert_eq!(rows[0].1.last, 1050);
    assert_eq!(rows[0].1.total(), 2);
    assert_eq!(c.window(1070), Window { requests: 1, replies: 1, ..Window::default() });
}

#[test]
fn equally_busy_flows_are_listed_in_order() {
    let mut c = Counters::new(60);
    let unrelayed = Flow { gi: None, ..to_server(2, 2) };
    for f in [to_server(3, 1), to_server(2, 2), unrelayed, to_server(2, 1)] {
        c.add(Kind::TftpReply, f, 1000);
    }
    let got: Vec<Flow> = c.by_flow(1000).into_iter().map(|(f, _)| f).collect();
    assert_eq!(got, vec![unrelayed, to_server(2, 1), to_server(2, 2), to_server(3, 1)]);
}

#[test]
fn the_listed_flows_add_up_to_the_window() {
    let mut c = Counters::new(60);
    for t in 0..100u64 {
        let f = to_server((t % 7) as u8, (t % 5) as u8);
        let kind = [Kind::ClientRequest, Kind::ServerReply, Kind::TftpRequest, Kind::TftpReply]
            [(t % 4) as usize];
        c.add(kind, f, 1000 + t);
    }
    let w = c.window(1099);
    let mut sum = [0u64; 4];
    for (_, d) in c.by_flow(1099) {
        for (into, from) in sum.iter_mut().zip(d.counts) {
            *into += from;
        }
    }
    assert_eq!(sum, [w.requests, w.replies, w.tftp_reads, w.tftp_sends]);
    assert_eq!(sum.iter().sum::<u64>(), 60);
}

#[test]
fn one_relay_is_counted_apart_from_the_others() {
    let mut c = Counters::new(60);
    c.add(Kind::ClientRequest, to_server(1, 1), 1000);
    c.add(Kind::ServerReply, to_server(2, 1), 1001);
    c.add(Kind::ClientRequest, to_server(1, 2), 1001);
    let one = c.relayed(Ipv4Addr::new(10, 100, 0, 1), 1001);
    assert_eq!(one, Window { requests: 1, replies: 1, ..Window::default() });
    let two = c.relayed(Ipv4Addr::new(10, 100, 0, 2), 1001);
    assert_eq!(two, Window { requests: 1, ..Window::default() });
    assert_eq!(c.relayed(Ipv4Addr::new(10, 100, 0, 3), 1001), Window::default());
    assert_eq!(c.relayed(Ipv4Addr::new(10, 100, 0, 1), 1060).replies, 1);
    assert_eq!(c.relayed(Ipv4Addr::new(10, 100, 0, 1), 1060).requests, 0);
}

#[test]
fn looking_in_between_changes_nothing_that_is_counted() {
    let (mut c, mut looked_at) = (Counters::new(60), Counters::new(60));
    for t in 0..200u64 {
        let f = to_server((t % 3) as u8, 1);
        c.add(Kind::ClientRequest, f, 1_000 + t);
        looked_at.add(Kind::ClientRequest, f, 1_000 + t);
        looked_at.window(1_000 + t);
        looked_at.by_flow(1_000 + t);
        looked_at.relayed(Ipv4Addr::new(10, 100, 0, 1), 1_000 + t);
    }
    assert_eq!(looked_at.total(), c.total());
    assert_eq!(looked_at.total().requests, 200);
    assert_eq!(looked_at.window(1_199), c.window(1_199));
    assert_eq!(looked_at.window(1_199).requests, 60);
    let rows = |mut c: Counters| -> Vec<(Flow, [u64; 4], u64)> {
        c.by_flow(1_199).into_iter().map(|(f, d)| (f, d.counts, d.last)).collect()
    };
    assert_eq!(rows(looked_at), rows(c));
}

#[test]
fn a_window_of_nothing_is_a_second() {
    let mut c = Counters::new(0);
    c.add(Kind::ClientRequest, to_server(1, 1), 1000);
    assert_eq!(c.window(1000).requests, 1);
    assert_eq!(c.window(1001).requests, 0);
    assert!(c.has_room(Kind::ClientRequest));
}

#[test]
fn an_empty_share_is_nothing() {
    let d = Dest::default();
    assert_eq!(d.counts, [0; 4]);
    assert_eq!(d.last, 0);
    assert_eq!(d.total(), 0);
}
