use std::cell::RefCell;
use std::rc::Rc;

use mesh_core::addr::NetAddr;
use mesh_core::errors::{DialError, MeshError, RecvError, SendError};
use mesh_core::link::{Link, LinkConnection};
use mesh_core::multilink::MultiLinkManager;
use mesh_core::peer::{LinkType, PeerID, PeerInfo};

struct MockConn {
    fail_send: bool,
    sends: Rc<RefCell<Vec<Vec<u8>>>>,
}

impl LinkConnection for MockConn {
    fn send(&self, data: &[u8]) -> Result<(), SendError> {
        if self.fail_send {
            Err(SendError::Io)
        } else {
            self.sends.borrow_mut().push(data.to_vec());
            Ok(())
        }
    }

    fn receive(&self) -> Result<Vec<u8>, RecvError> {
        Err(RecvError::ChannelClosed)
    }
}

#[derive(Clone)]
struct MockLink {
    fail_dial: bool,
    fail_send: bool,
    dials: Rc<RefCell<Vec<String>>>,
    sends: Rc<RefCell<Vec<Vec<u8>>>>,
}

impl MockLink {
    fn new(fail_dial: bool, fail_send: bool) -> Self {
        MockLink {
            fail_dial,
            fail_send,
            dials: Rc::new(RefCell::new(Vec::new())),
            sends: Rc::new(RefCell::new(Vec::new())),
        }
    }
}

impl Link for MockLink {
    type Conn = MockConn;

    fn dial(&self, address: &str) -> Result<MockConn, DialError> {
        self.dials.borrow_mut().push(address.to_string());
        if self.fail_dial {
            Err(DialError::Io)
        } else {
            Ok(MockConn { fail_send: self.fail_send, sends: self.sends.clone() })
        }
    }

    fn accept(&self) -> Result<MockConn, DialError> {
        Err(DialError::Io)
    }

    fn mtu(&self) -> usize {
        100
    }

    fn latency(&self) -> u64 {
        10
    }
}

fn reachable_both(id: &str) -> PeerInfo {
    PeerInfo {
        id: PeerID(id.to_string()),
        wifi_addr: Some(NetAddr { a: 127, b: 0, c: 0, d: 1, port: 8000 }),
        ble_addr: Some("aa:bb:cc:dd:ee:ff".to_string()),
        last_seen: 0,
        rtt_ms: None,
        mtu: None,
        loss_percent: None,
    }
}

fn reachable_ble_only(id: &str) -> PeerInfo {
    PeerInfo {
        id: PeerID(id.to_string()),
        wifi_addr: None,
        ble_addr: Some("aa:bb:cc:dd:ee:ff".to_string()),
        last_seen: 0,
        rtt_ms: None,
        mtu: None,
        loss_percent: None,
    }
}

#[test]
fn failover_tries_ble_after_wifi_dial_failure() {
    let wifi = MockLink::new(true, false);
    let ble = MockLink::new(false, false);
    let mut mgr = MultiLinkManager::new(
        Some(wifi.clone()),
        Some(ble.clone()),
        Vec::new(),
        vec![LinkType::Wifi, LinkType::Ble],
    );
    mgr.update_peer(reachable_both("p"));
    let r = mgr.send(&PeerID("p".to_string()), b"hello");
    assert!(r.is_ok());
    // wi-fi was attempted first and failed; ble carried the payload
    assert_eq!(wifi.dials.borrow().as_slice(), &["127.0.0.1:8000".to_string()]);
    assert_eq!(ble.dials.borrow().as_slice(), &["aa:bb:cc:dd:ee:ff".to_string()]);
    assert_eq!(ble.sends.borrow().as_slice(), &[b"hello".to_vec()]);
    assert!(wifi.sends.borrow().is_empty());
}

#[test]
fn failover_tries_ble_after_wifi_send_failure() {
    let wifi = MockLink::new(false, true);
    let ble = MockLink::new(false, false);
    let mut mgr = MultiLinkManager::new(
        Some(wifi.clone()),
        Some(ble.clone()),
        Vec::new(),
        vec![LinkType::Wifi, LinkType::Ble],
    );
    mgr.update_peer(reachable_both("p"));
    assert!(mgr.send(&PeerID("p".to_string()), b"payload").is_ok());
    assert_eq!(wifi.dials.borrow().len(), 1);
    assert!(wifi.sends.borrow().is_empty());
    assert_eq!(ble.sends.borrow().as_slice(), &[b"payload".to_vec()]);
}

#[test]
fn wifi_is_never_attempted_without_an_address() {
    let wifi = MockLink::new(false, false);
    let ble = MockLink::new(false, false);
    let mut mgr = MultiLinkManager::new(
        Some(wifi.clone()),
        Some(ble.clone()),
        Vec::new(),
        vec![LinkType::Wifi, LinkType::Ble],
    );
    mgr.update_peer(reachable_ble_only("q"));
    assert!(mgr.send(&PeerID("q".to_string()), b"x").is_ok());
    assert!(wifi.dials.borrow().is_empty());
    assert_eq!(ble.dials.borrow().len(), 1);
}

#[test]
fn priority_order_decides_the_first_attempt() {
    let wifi = MockLink::new(false, false);
    let ble = MockLink::new(false, false);
    let mut mgr = MultiLinkManager::new(
        Some(wifi.clone()),
        Some(ble.clone()),
        Vec::new(),
        vec![LinkType::Ble, LinkType::Wifi],
    );
    mgr.update_peer(reachable_both("p"));
    assert!(mgr.send(&PeerID("p".to_string()), b"x").is_ok());
    // ble was first in priority and succeeded; wi-fi never ran
    assert!(wifi.dials.borrow().is_empty());
    assert_eq!(ble.dials.borrow().len(), 1);
}

#[test]
fn unknown_peer_is_no_route_without_any_dial() {
    let wifi = MockLink::new(false, false);
    let ble = MockLink::new(false, false);
    let mgr: MultiLinkManager<MockLink, MockLink> = MultiLinkManager::new(
        Some(wifi.clone()),
        Some(ble.clone()),
        Vec::new(),
        vec![LinkType::Wifi, LinkType::Ble],
    );
    let r = mgr.send(&PeerID("absent".to_string()), b"x");
    assert_eq!(r, Err(MeshError::NoRoute));
    assert!(wifi.dials.borrow().is_empty());
    assert!(ble.dials.borrow().is_empty());
}

#[test]
fn exhausting_every_transport_is_no_route() {
    let wifi = MockLink::new(true, false);
    let ble = MockLink::new(true, false);
    let mut mgr = MultiLinkManager::new(
        Some(wifi.clone()),
        Some(ble.clone()),
        Vec::new(),
        vec![LinkType::Wifi, LinkType::Ble],
    );
    mgr.update_peer(reachable_both("p"));
    let r = mgr.send(&PeerID("p".to_string()), b"x");
    assert_eq!(r, Err(MeshError::NoRoute));
    assert_eq!(wifi.dials.borrow().len(), 1);
    assert_eq!(ble.dials.borrow().len(), 1);
}

#[test]
fn pick_best_link_follows_priority_and_addresses() {
    let wifi = MockLink::new(false, false);
    let ble = MockLink::new(false, false);
    let mut mgr = MultiLinkManager::new(
        Some(wifi),
        Some(ble),
        Vec::new(),
        vec![LinkType::Wifi, LinkType::Ble],
    );
    mgr.update_peer(reachable_both("both"));
    mgr.update_peer(reachable_ble_only("ble_only"));
    assert_eq!(mgr.pick_best_link(&PeerID("both".to_string())), Some(LinkType::Wifi));
    assert_eq!(mgr.pick_best_link(&PeerID("ble_only".to_string())), Some(LinkType::Ble));
    assert_eq!(mgr.pick_best_link(&PeerID("nobody".to_string())), None);
}

#[test]
fn bootstrap_seeds_wifi_routes() {
    let wifi = MockLink::new(false, false);
    let ble = MockLink::new(false, false);
    let addr = NetAddr { a: 10, b: 1, c: 2, d: 3, port: 7000 };
    let mut mgr = MultiLinkManager::new(
        Some(wifi),
        Some(ble),
        vec![(PeerID("seed".to_string()), addr)],
        vec![LinkType::Wifi, LinkType::Ble],
    );
    mgr.bootstrap_peers(42);
    let peers = mgr.peers();
    let p = peers.get_peer(PeerID("seed".to_string())).expect("seeded");
    assert_eq!(p.wifi_addr, Some(addr));
    assert_eq!(p.last_seen, 42);
    assert_eq!(p.rtt_ms, Some(0));
    assert_eq!(p.mtu, Some(1500));
    assert_eq!(p.loss_percent, Some(0));
}
