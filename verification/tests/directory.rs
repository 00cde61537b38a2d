use mesh_core::addr::NetAddr;
use mesh_core::peer::{PeerID, PeerInfo, PeerStore};

fn record(id: &str, wifi: Option<NetAddr>, ble: Option<&str>, seen: u64) -> PeerInfo {
    PeerInfo {
        id: PeerID(id.to_string()),
        wifi_addr: wifi,
        ble_addr: ble.map(|s| s.to_string()),
        last_seen: seen,
        rtt_ms: None,
        mtu: None,
        loss_percent: None,
    }
}

#[test]
fn last_write_wins_never_merges() {
    let a = NetAddr { a: 10, b: 0, c: 0, d: 1, port: 9000 };
    let mut store = PeerStore::default();
    store.update_store(record("X", Some(a), None, 1));
    store.update_store(record("X", None, Some("aa:bb:cc"), 2));
    let all = store.get_all_peers();
    assert_eq!(all.len(), 1);
    let p = store.get_peer(PeerID("X".to_string())).expect("X is known");
    // the second record fully replaced the first: wifi is gone
    assert!(p.wifi_addr.is_none());
    assert_eq!(p.ble_addr.as_deref(), Some("aa:bb:cc"));
    assert_eq!(p.last_seen, 2);
}

#[test]
fn distinct_ids_coexist() {
    let a = NetAddr { a: 192, b: 168, c: 1, d: 7, port: 4000 };
    let mut store = PeerStore::default();
    store.update_store(record("n1", Some(a), None, 1));
    store.update_store(record("n2", None, Some("dd:ee"), 2));
    assert_eq!(store.get_all_peers().len(), 2);
    assert!(store.get_peer(PeerID("n1".to_string())).is_some());
    assert!(store.get_peer(PeerID("n2".to_string())).is_some());
    assert!(store.get_peer(PeerID("n3".to_string())).is_none());
}

#[test]
fn empty_store_knows_nobody() {
    let store = PeerStore::default();
    assert_eq!(store.get_all_peers().len(), 0);
    assert!(store.get_peer(PeerID(String::new())).is_none());
}
