use std::cell::RefCell;
use std::rc::Rc;

use mesh_core::addr::NetAddr;
use mesh_core::errors::{DialError, MeshError, RecvError, SendError};
use mesh_core::link::{Link, LinkConnection};
use mesh_core::peer::{PeerID, PeerInfo, PeerStore};
use mesh_core::routing::RoutingLayer;

struct OneConn {
    sends: Rc<RefCell<Vec<Vec<u8>>>>,
}

impl LinkConnection for OneConn {
    fn send(&self, data: &[u8]) -> Result<(), SendError> {
        self.sends.borrow_mut().push(data.to_vec());
        Ok(())
    }

    fn receive(&self) -> Result<Vec<u8>, RecvError> {
        Err(RecvError::ChannelClosed)
    }
}

#[derive(Clone)]
struct OneLink {
    fail_dial: bool,
    dials: Rc<RefCell<Vec<String>>>,
    sends: Rc<RefCell<Vec<Vec<u8>>>>,
}

impl OneLink {
    fn new(fail_dial: bool) -> Self {
        OneLink {
            fail_dial,
            dials: Rc::new(RefCell::new(Vec::new())),
            sends: Rc::new(RefCell::new(Vec::new())),
        }
    }
}

impl Link for OneLink {
    type Conn = OneConn;

    fn dial(&self, address: &str) -> Result<OneConn, DialError> {
        self.dials.borrow_mut().push(address.to_string());
        if self.fail_dial {
            Err(DialError::Handshake)
        } else {
            Ok(OneConn { sends: self.sends.clone() })
        }
    }

    fn accept(&self) -> Result<OneConn, DialError> {
        Err(DialError::Io)
    }

    fn mtu(&self) -> usize {
        100
    }

    fn latency(&self) -> u64 {
        10
    }
}

fn known_peer(id: &str, wifi: Option<NetAddr>) -> PeerInfo {
    PeerInfo {
        id: PeerID(id.to_string()),
        wifi_addr: wifi,
        ble_addr: None,
        last_seen: 0,
        rtt_ms: None,
        mtu: None,
        loss_percent: None,
    }
}

#[test]
fn routing_sends_to_reachable_peer() {
    let link = OneLink::new(false);
    let mut layer = RoutingLayer::new(link.clone(), PeerStore::default());
    layer.update_peer(known_peer("n2", Some(NetAddr { a: 127, b: 0, c: 0, d: 1, port: 4000 })));
    assert!(layer.send(PeerID("n2".to_string()), b"hi").is_ok());
    assert_eq!(link.dials.borrow().as_slice(), &["127.0.0.1:4000".to_string()]);
    assert_eq!(link.sends.borrow().as_slice(), &[b"hi".to_vec()]);
}

#[test]
fn routing_silently_succeeds_for_unknown_peer() {
    let link = OneLink::new(false);
    let layer = RoutingLayer::new(link.clone(), PeerStore::default());
    assert!(layer.send(PeerID("ghost".to_string()), b"hi").is_ok());
    assert!(link.dials.borrow().is_empty());
}

#[test]
fn routing_silently_succeeds_without_address() {
    let link = OneLink::new(false);
    let mut layer = RoutingLayer::new(link.clone(), PeerStore::default());
    layer.update_peer(known_peer("n3", None));
    assert!(layer.send(PeerID("n3".to_string()), b"hi").is_ok());
    assert!(link.dials.borrow().is_empty());
}

#[test]
fn routing_surfaces_dial_failure() {
    let link = OneLink::new(true);
    let mut layer = RoutingLayer::new(link.clone(), PeerStore::default());
    layer.update_peer(known_peer("n4", Some(NetAddr { a: 10, b: 0, c: 0, d: 9, port: 1 })));
    let r = layer.send(PeerID("n4".to_string()), b"hi");
    assert_eq!(r, Err(MeshError::Dial(DialError::Handshake)));
    assert_eq!(link.dials.borrow().len(), 1);
}
