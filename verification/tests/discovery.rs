use mesh_core::addr::{format_addr, parse_addr, NetAddr};
use mesh_core::discovery::{encode_announcement, ingest_datagram, parse_announcement};
use mesh_core::peer::{PeerID, PeerStore};

#[test]
fn listener_updates_directory_from_valid_announcement() {
    let mut store = PeerStore::default();
    let changed = ingest_datagram(&mut store, b"peer1|127.0.0.1:9999", 77);
    assert!(changed);
    let p = store.get_peer(PeerID("peer1".to_string())).expect("peer1 discovered");
    assert_eq!(p.wifi_addr, Some(NetAddr { a: 127, b: 0, c: 0, d: 1, port: 9999 }));
    assert!(p.ble_addr.is_none());
    assert_eq!(p.last_seen, 77);
    assert!(p.rtt_ms.is_none() && p.mtu.is_none() && p.loss_percent.is_none());
}

#[test]
fn listener_ignores_datagram_without_delimiter() {
    let mut store = PeerStore::default();
    let changed = ingest_datagram(&mut store, b"garbage", 5);
    assert!(!changed);
    assert_eq!(store.get_all_peers().len(), 0);
}

#[test]
fn listener_ignores_unparsable_address() {
    let mut store = PeerStore::default();
    let changed = ingest_datagram(&mut store, b"peer2|not-an-address", 5);
    assert!(!changed);
    assert_eq!(store.get_all_peers().len(), 0);
}

#[test]
fn announcement_encodes_exactly() {
    let id = PeerID("n1".to_string());
    let addr = NetAddr { a: 10, b: 0, c: 0, d: 2, port: 4000 };
    let msg = encode_announcement(&id, &addr);
    assert_eq!(msg.as_slice(), b"n1|10.0.0.2:4000");
}

#[test]
fn announcement_round_trips_through_listener() {
    let id = PeerID("node7".to_string());
    let addr = NetAddr { a: 239, b: 255, c: 0, d: 1, port: 4000 };
    let msg = encode_announcement(&id, &addr);
    let mut store = PeerStore::default();
    assert!(ingest_datagram(&mut store, &msg, 3));
    let p = store.get_peer(id).expect("own announcement is understood");
    assert_eq!(p.wifi_addr, Some(addr));
}

#[test]
fn parse_announcement_splits_on_first_delimiter() {
    // the split happens once: the address half "b|1.2.3.4:5" is no address
    assert!(parse_announcement(b"a|b|1.2.3.4:5").is_none());
    let (idb, addr) = parse_announcement(b"a|1.2.3.4:5").expect("valid announcement");
    assert_eq!(idb.as_slice(), b"a");
    assert_eq!(addr, NetAddr { a: 1, b: 2, c: 3, d: 4, port: 5 });
}

#[test]
fn malformed_utf8_identity_is_decoded_lossily() {
    // 0xFF is no UTF-8: the identity becomes the replacement character,
    // not the raw byte
    let mut msg: Vec<u8> = vec![0xFF];
    msg.extend_from_slice(b"|1.2.3.4:5");
    let mut store = PeerStore::default();
    assert!(ingest_datagram(&mut store, &msg, 1));
    let all = store.get_all_peers();
    assert_eq!(all.len(), 1);
    assert_eq!(all[0].id.0, "\u{FFFD}");
}

#[test]
fn address_text_round_trips() {
    let addr = NetAddr { a: 255, b: 0, c: 17, d: 3, port: 65535 };
    let text = format_addr(&addr);
    assert_eq!(text.as_slice(), b"255.0.17.3:65535");
    assert_eq!(parse_addr(&text), Some(addr));
}

#[test]
fn address_parser_accepts_only_canonical_texts() {
    assert_eq!(
        parse_addr(b"0.0.0.0:0"),
        Some(NetAddr { a: 0, b: 0, c: 0, d: 0, port: 0 })
    );
    assert_eq!(
        parse_addr(b"127.0.0.1:9999"),
        Some(NetAddr { a: 127, b: 0, c: 0, d: 1, port: 9999 })
    );
    assert_eq!(parse_addr(b""), None);
    assert_eq!(parse_addr(b"1.2.3.4"), None);
    assert_eq!(parse_addr(b"1.2.3:4"), None);
    assert_eq!(parse_addr(b"256.0.0.1:5"), None);
    assert_eq!(parse_addr(b"01.2.3.4:5"), None);
    assert_eq!(parse_addr(b"1.2.3.4:65536"), None);
    assert_eq!(parse_addr(b"1.2.3.4:05"), None);
    assert_eq!(parse_addr(b"1.2.3.4:5 "), None);
    assert_eq!(parse_addr(b"1.2.3.4:"), None);
    assert_eq!(parse_addr(b"a.b.c.d:e"), None);
}
