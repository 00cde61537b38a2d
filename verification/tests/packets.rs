use std::collections::HashSet;

use mesh_core::utils::{handle_packet, make_ack, make_packet, split_packet};

#[test]
fn packet_round_trips() {
    let packet = make_packet(513, b"mesh-core is live");
    assert_eq!(packet.len(), 8 + 17);
    assert_eq!(&packet[..8], &[0u8, 0, 0, 0, 0, 0, 2, 1]);
    let (seq_no, payload) = split_packet(&packet).expect("long enough");
    assert_eq!(seq_no, 513);
    assert_eq!(payload.as_slice(), b"mesh-core is live");
}

#[test]
fn packet_round_trips_at_extremes() {
    let (seq_no, payload) = split_packet(&make_packet(0, b"")).expect("valid");
    assert_eq!(seq_no, 0);
    assert!(payload.is_empty());
    let (seq_no, _) = split_packet(&make_packet(u64::MAX, b"x")).expect("valid");
    assert_eq!(seq_no, u64::MAX);
}

#[test]
fn short_packet_is_rejected() {
    assert!(split_packet(b"").is_none());
    assert!(split_packet(b"1234567").is_none());
}

#[test]
fn ack_text_is_exact() {
    assert_eq!(make_ack(0).as_slice(), b"ACK 0");
    assert_eq!(make_ack(42).as_slice(), b"ACK 42");
    assert_eq!(make_ack(18446744073709551615).as_slice(), b"ACK 18446744073709551615");
}

#[test]
fn server_loop_deduplicates_by_sequence() {
    let mut seen = HashSet::new();
    let first = make_packet(7, b"hello");
    let (s1, p1) = split_packet(&first).expect("valid");
    assert!(handle_packet(&mut seen, s1, &p1));
    let replay = make_packet(7, b"hello again");
    let (s2, p2) = split_packet(&replay).expect("valid");
    assert!(!handle_packet(&mut seen, s2, &p2));
    assert_eq!(seen.len(), 1);
}
