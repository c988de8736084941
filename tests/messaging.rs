use bytes::Bytes;
use rsq::codec::{decode_msg_at, encode_frame, FrameBuffer, FrameStatus};
use rsq::messaging::channel::{Channel, ChannelId};
use rsq::messaging::msg::{ChannelMsg, Msg, StatusMsg};
use rsq::messaging::peer::{Peer, PeerId};
use rsq::messaging::router::{Dispatch, Router};

struct TestPeer {
    peer: Peer,
    num_received: usize,
    rx: flume::Receiver<Bytes>,
}

impl TestPeer {
    fn new(id: &str) -> TestPeer {
        let (tx, rx) = flume::unbounded();
        TestPeer { peer: Peer::new(PeerId::new(id), tx), num_received: 0, rx }
    }

    fn bounded(id: &str, cap: usize) -> TestPeer {
        let (tx, rx) = flume::bounded(cap);
        TestPeer { peer: Peer::new(PeerId::new(id), tx), num_received: 0, rx }
    }

    fn poll(&mut self) {
        while self.rx.try_recv().is_ok() {
            self.num_received += 1;
        }
    }

    fn drain(&self) -> Vec<Bytes> {
        let mut out = Vec::new();
        while let Ok(b) = self.rx.try_recv() {
            out.push(b);
        }
        out
    }
}

fn channel_frame(sender: &str, channel: &str, content: &[u8]) -> Vec<u8> {
    let msg = Msg::new_channel_msg(
        PeerId::new(sender),
        ChannelId(channel.to_string()),
        content.to_vec(),
    );
    encode_frame(&msg).unwrap()
}

fn join_frame(channel: &str) -> Vec<u8> {
    encode_frame(&Msg::channel_join(ChannelId(channel.to_string()))).unwrap()
}

fn leave_frame(channel: &str) -> Vec<u8> {
    encode_frame(&Msg::channel_leave(ChannelId(channel.to_string()))).unwrap()
}

fn decoded_channel_msg(frame: &[u8]) -> ChannelMsg {
    match decode_msg_at(frame, 4) {
        Some(Msg::ChannelMsg(m)) => m,
        other => panic!("not a channel message: {:?}", other),
    }
}

#[test]
fn basic() {
    let peerid = "test_peer";
    let peer = TestPeer::new(peerid);
    assert_eq!(peer.peer.get_id(), &PeerId::new(peerid));
}

#[test]
fn peer_send() {
    let channel = Channel::new(ChannelId("test_channel".to_string()));
    let mut peer = TestPeer::new("test_peer");
    let msg = Msg::new_channel_msg(
        peer.peer.get_id().clone(),
        channel.get_id().clone(),
        b"test_data".to_vec(),
    );
    assert_eq!(peer.num_received, 0);
    peer.peer.get_sink().send(Bytes::from(encode_frame(&msg).unwrap())).unwrap();
    peer.poll();
    assert_eq!(peer.num_received, 1);
}

#[test]
fn channel_send() {
    let mut channel = Channel::new(ChannelId("test_channel".to_string()));
    let mut peer = TestPeer::new("test_peer");
    let mut peer2 = TestPeer::new("test_peer2");
    let msg = Msg::new_channel_msg(
        peer.peer.get_id().clone(),
        channel.get_id().clone(),
        b"test_data".to_vec(),
    );
    channel.subscribe(&peer.peer);
    channel.subscribe(&peer2.peer);

    assert_eq!(peer.num_received, 0);
    assert_eq!(peer2.num_received, 0);
    channel.forward(&Bytes::from(encode_frame(&msg).unwrap()), peer.peer.get_id());
    peer.poll();
    peer2.poll();
    assert_eq!(peer.num_received, 0);
    assert_eq!(peer2.num_received, 1);
}

#[test]
fn router_basic() {
    let _router = Router::new();
    let peer = Box::new(TestPeer::new("test_peer"));
    let peer2 = Box::new(TestPeer::new("test_peer2"));
    let mut channel = Channel::new(ChannelId("test_channel".to_string()));
    channel.subscribe(&peer.as_ref().peer);
    channel.subscribe(&peer2.as_ref().peer);
}

fn k(name: &str) -> ChannelId {
    ChannelId(name.to_string())
}

#[test]
fn fan_out_reaches_every_other_subscriber() {
    let mut router = Router::new();
    let a = TestPeer::new("A");
    let b = TestPeer::new("B");
    let c = TestPeer::new("C");
    for p in [&a, &b, &c] {
        router.peer_add(&p.peer);
        assert_eq!(router.dispatch(&p.peer, join_frame("k")), Dispatch::Joined);
    }
    let frame = channel_frame("A", "k", b"hello");
    assert_eq!(router.dispatch(&a.peer, frame.clone()), Dispatch::Forwarded(2));
    for p in [&b, &c] {
        let got = p.drain();
        assert_eq!(got.len(), 1);
        assert_eq!(&got[0][..], &frame[..]);
        let m = decoded_channel_msg(&got[0]);
        assert_eq!(m.sender(), &PeerId::new("A"));
        assert_eq!(m.channel(), &k("k"));
        assert_eq!(m.content(), &b"hello".to_vec());
    }
    assert!(a.drain().is_empty());
}

#[test]
fn sender_never_gets_its_own_message() {
    let mut router = Router::new();
    let a = TestPeer::new("A");
    let b = TestPeer::new("B");
    router.peer_add(&a.peer);
    router.peer_add(&b.peer);
    router.dispatch(&a.peer, join_frame("k1"));
    router.dispatch(&a.peer, join_frame("k2"));
    router.dispatch(&b.peer, join_frame("k1"));
    assert_eq!(router.dispatch(&a.peer, channel_frame("A", "k1", b"x")), Dispatch::Forwarded(1));
    assert_eq!(b.drain().len(), 1);
    assert!(a.drain().is_empty());
    assert_eq!(router.dispatch(&a.peer, channel_frame("A", "k2", b"y")), Dispatch::Forwarded(0));
    assert!(a.drain().is_empty());
    assert!(b.drain().is_empty());
    assert_eq!(router.subscriber_count(&k("k2")), 1);
}

#[test]
fn publishing_before_any_subscriber_creates_the_channel() {
    let mut router = Router::new();
    let a = TestPeer::new("A");
    let b = TestPeer::new("B");
    router.peer_add(&a.peer);
    router.peer_add(&b.peer);
    for _ in 0..1000 {
        assert_eq!(router.dispatch(&a.peer, channel_frame("A", "late", b"m")), Dispatch::Forwarded(0));
    }
    assert!(router.has_channel(&k("late")));
    assert_eq!(router.subscriber_count(&k("late")), 0);
    assert!(b.drain().is_empty());
    router.dispatch(&b.peer, join_frame("late"));
    assert_eq!(router.dispatch(&a.peer, channel_frame("A", "late", b"one")), Dispatch::Forwarded(1));
    let got = b.drain();
    assert_eq!(got.len(), 1);
    assert_eq!(decoded_channel_msg(&got[0]).content(), &b"one".to_vec());
}

#[test]
fn slow_peer_is_evicted_when_its_queue_is_full() {
    let mut router = Router::new();
    let a = TestPeer::new("A");
    let b = TestPeer::bounded("B", 2);
    let c = TestPeer::new("C");
    router.attach(&k("k"), &b.peer);
    assert_eq!(router.forward(&Bytes::from_static(b"1"), &k("k"), a.peer.get_id()), 1);
    assert_eq!(router.forward(&Bytes::from_static(b"2"), &k("k"), a.peer.get_id()), 1);
    assert_eq!(router.forward(&Bytes::from_static(b"3"), &k("k"), a.peer.get_id()), 0);
    assert!(!router.channel_get(&k("k")).unwrap().is_subscribed(&PeerId::new("B")));
    router.attach(&k("k"), &c.peer);
    assert_eq!(router.forward(&Bytes::from_static(b"4"), &k("k"), a.peer.get_id()), 1);
    assert_eq!(c.drain(), vec![Bytes::from_static(b"4")]);
    assert_eq!(b.drain().len(), 2);
}

#[test]
fn disconnected_peer_is_forgotten_and_reaped() {
    let mut router = Router::new();
    let a = TestPeer::new("A");
    let b = TestPeer::new("B");
    router.peer_add(&a.peer);
    router.peer_add(&b.peer);
    router.dispatch(&a.peer, join_frame("k"));
    router.dispatch(&b.peer, join_frame("k"));
    assert!(router.peer_remove(a.peer.get_id()));
    assert!(!router.has_peer(a.peer.get_id()));
    assert!(router.has_peer(b.peer.get_id()));
    assert_eq!(router.peer_count(), 1);
    let TestPeer { peer: a_peer, rx: a_rx, .. } = a;
    drop(a_rx);
    drop(a_peer);
    assert_eq!(router.dispatch(&b.peer, channel_frame("B", "k", b"bye")), Dispatch::Forwarded(0));
    assert!(!router.channel_get(&k("k")).unwrap().is_subscribed(&PeerId::new("A")));
    assert_eq!(router.subscriber_count(&k("k")), 1);
    assert!(!router.peer_remove(&PeerId::new("A")));
}

#[test]
fn frame_split_across_reads_is_dispatched_once() {
    let mut router = Router::new();
    let a = TestPeer::new("A");
    let b = TestPeer::new("B");
    router.dispatch(&b.peer, join_frame("k"));
    let frame = channel_frame("A", "k", b"split");
    let mut buf = FrameBuffer::new();
    let cut1 = 3;
    let cut2 = 9;
    let mut dispatched = 0;
    for piece in [&frame[..cut1], &frame[cut1..cut2], &frame[cut2..]] {
        buf.extend(piece);
        loop {
            match buf.next_frame() {
                FrameStatus::Complete(f) => {
                    assert_eq!(router.dispatch(&a.peer, f), Dispatch::Forwarded(1));
                    dispatched += 1;
                }
                FrameStatus::Need(_) => break,
                FrameStatus::TooLarge => panic!("frame refused"),
            }
        }
    }
    assert_eq!(dispatched, 1);
    assert_eq!(buf.len(), 0);
    let got = b.drain();
    assert_eq!(got.len(), 1);
    assert_eq!(&got[0][..], &frame[..]);
}

#[test]
fn oversized_prefix_ends_only_that_connection() {
    let mut router = Router::new();
    let bad = TestPeer::new("bad");
    let b = TestPeer::new("B");
    let c = TestPeer::new("C");
    for p in [&bad, &b, &c] {
        router.peer_add(&p.peer);
        router.dispatch(&p.peer, join_frame("k"));
    }
    let mut buf = FrameBuffer::new();
    buf.extend(&[0xff, 0xff, 0xff, 0xff, 0]);
    assert!(matches!(buf.next_frame(), FrameStatus::TooLarge));
    assert_eq!(buf.len(), 5);
    assert!(router.peer_remove(bad.peer.get_id()));
    router.dispatch(&bad.peer, leave_frame("k"));
    assert_eq!(router.dispatch(&b.peer, channel_frame("B", "k", b"ok")), Dispatch::Forwarded(1));
    assert_eq!(c.drain().len(), 1);
    assert!(router.has_peer(b.peer.get_id()));
    assert!(router.has_peer(c.peer.get_id()));
}

#[test]
fn last_leave_drops_the_channel() {
    let mut router = Router::new();
    let a = TestPeer::new("A");
    let b = TestPeer::new("B");
    router.dispatch(&a.peer, join_frame("k"));
    router.dispatch(&b.peer, join_frame("k"));
    assert_eq!(router.channel_count(), 1);
    assert_eq!(router.dispatch(&a.peer, leave_frame("k")), Dispatch::Left);
    assert!(router.has_channel(&k("k")));
    assert!(!router.detach(&k("k"), a.peer.get_id()));
    assert!(router.detach(&k("k"), b.peer.get_id()));
    assert!(!router.has_channel(&k("k")));
    assert_eq!(router.channel_count(), 0);
    assert_eq!(router.subscriber_count(&k("k")), 0);
    assert!(!router.detach(&k("k"), b.peer.get_id()));
}

#[test]
fn second_join_replaces_the_handle() {
    let mut channel = Channel::new(k("k"));
    let (tx1, rx1) = flume::unbounded();
    let (tx2, rx2) = flume::unbounded();
    channel.subscribe(&Peer::new(PeerId::new("p"), tx1));
    channel.subscribe(&Peer::new(PeerId::new("p"), tx2));
    assert_eq!(channel.subscriber_count(), 1);
    assert_eq!(channel.forward(&Bytes::from_static(b"z"), &PeerId::new("q")), 1);
    assert!(rx1.try_recv().is_err());
    assert_eq!(rx2.try_recv().unwrap(), Bytes::from_static(b"z"));
}

#[test]
fn unsubscribe_reports_emptiness() {
    let mut channel = Channel::new(k("k"));
    let p = TestPeer::new("p");
    let q = TestPeer::new("q");
    assert_eq!(channel.get_name(), "k");
    channel.subscribe(&p.peer);
    channel.subscribe(&q.peer);
    assert!(!channel.unsubscribe(p.peer.get_id()));
    assert!(!channel.unsubscribe(p.peer.get_id()));
    assert!(channel.unsubscribe(q.peer.get_id()));
    assert_eq!(channel.subscriber_count(), 0);
}

#[test]
fn status_and_malformed_frames_are_ignored() {
    let mut router = Router::new();
    let a = TestPeer::new("A");
    let status = encode_frame(&Msg::new_status(StatusMsg::Connected)).unwrap();
    assert_eq!(router.dispatch(&a.peer, status), Dispatch::Ignored);
    assert_eq!(router.dispatch(&a.peer, vec![0, 0, 0, 1, 7]), Dispatch::Ignored);
    assert_eq!(router.dispatch(&a.peer, vec![0, 0, 0, 0]), Dispatch::Ignored);
    assert_eq!(router.channel_count(), 0);
}

#[test]
fn same_sender_order_is_kept() {
    let mut router = Router::new();
    let a = TestPeer::new("A");
    let b = TestPeer::new("B");
    router.dispatch(&b.peer, join_frame("k"));
    let first = channel_frame("A", "k", b"first");
    let second = channel_frame("A", "k", b"second");
    router.dispatch(&a.peer, first.clone());
    router.dispatch(&a.peer, second.clone());
    let got = b.drain();
    assert_eq!(got.len(), 2);
    assert_eq!(&got[0][..], &first[..]);
    assert_eq!(&got[1][..], &second[..]);
}

#[test]
fn channel_get_or_add_creates_once() {
    let mut router = Router::new();
    assert_eq!(router.channel_get_or_add(&k("a")), 0);
    assert_eq!(router.channel_get_or_add(&k("b")), 1);
    assert_eq!(router.channel_get_or_add(&k("a")), 0);
    assert_eq!(router.channel_count(), 2);
    assert_eq!(router.channel_get(&k("b")).unwrap().get_id(), &k("b"));
    assert!(router.channel_get(&k("c")).is_none());
}
