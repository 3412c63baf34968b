use std::sync::Arc;
use v4l2_quick::fountain::Fountain;
use v4l2_quick::pool::{select_protocol, Pool, Status};

#[test]
fn publish_reaches_every_link_with_the_same_handle() {
    let mut fountain: Fountain<Vec<u8>> = Fountain::new();
    let a = fountain.make_link();
    let b = fountain.make_link();
    let c = fountain.make_link();
    fountain.send(vec![1, 2, 3]);
    let ha = fountain.recv(a).unwrap();
    let hb = fountain.recv(b).unwrap();
    let hc = fountain.recv(c).unwrap();
    assert_eq!(*ha, vec![1, 2, 3]);
    // Handle-identical: all links share one allocation, no byte copy per
    // subscriber.
    assert!(Arc::ptr_eq(&ha, &hb));
    assert!(Arc::ptr_eq(&hb, &hc));
}

#[test]
fn links_deliver_in_publish_order() {
    let mut fountain: Fountain<u32> = Fountain::new();
    let a = fountain.make_link();
    fountain.send(1);
    fountain.send(2);
    assert_eq!(*fountain.recv(a).unwrap(), 1);
    assert_eq!(*fountain.recv(a).unwrap(), 2);
    assert!(fountain.recv(a).is_none());
}

#[test]
fn late_subscriber_never_sees_earlier_frames() {
    let mut fountain: Fountain<u32> = Fountain::new();
    let early = fountain.make_link();
    fountain.send(7);
    let late = fountain.make_link();
    assert!(fountain.recv(late).is_none());
    assert_eq!(*fountain.recv(early).unwrap(), 7);
    fountain.send(8);
    assert_eq!(*fountain.recv(late).unwrap(), 8);
}

#[test]
fn empty_fountain_sends_to_no_one() {
    let mut fountain: Fountain<u32> = Fountain::new();
    fountain.send(9);
    let link = fountain.make_link();
    assert!(fountain.recv(link).is_none());
}

#[test]
fn pool_signals_first_and_last_subscriber() {
    let mut pool: Pool<Vec<u8>> = Pool::new();
    assert_eq!(pool.live_clients(), 0);
    assert_eq!(pool.status(), None);
    pool.client_arrived();
    assert_eq!(pool.status(), Some(Status::ClientsAvailable));
    pool.client_arrived();
    assert_eq!(pool.live_clients(), 2);
    // A second subscriber does not repeat the wake-up.
    assert_eq!(pool.status(), None);
    pool.client_lost();
    assert_eq!(pool.status(), None);
    pool.client_lost();
    assert_eq!(pool.status(), Some(Status::NoClients));
    assert_eq!(pool.status(), None);
}

#[test]
fn pool_notify_fans_out_to_subscribers() {
    let mut pool: Pool<u32> = Pool::new();
    pool.client_arrived();
    let a = pool.subscribe();
    let b = pool.subscribe();
    pool.notify(42);
    assert_eq!(*pool.recv(a).unwrap(), 42);
    assert_eq!(*pool.recv(b).unwrap(), 42);
    assert!(pool.recv(a).is_none());
}

#[test]
fn handshake_confirms_only_offered_protocols() {
    let offered = vec![b"jpeg-meta".to_vec(), b"chat".to_vec()];
    assert!(select_protocol(&offered, b"jpeg-meta"));
    assert!(!select_protocol(&offered, b"jpeg"));
    let none: Vec<Vec<u8>> = vec![];
    assert!(!select_protocol(&none, b"jpeg-meta"));
}
