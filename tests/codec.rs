use rsq::codec::{
    decode_header_at, decode_msg, decode_msg_at, digest, encode_frame, encode_msg, CodecError,
    FrameBuffer, FrameStatus, MAX_FRAME_LEN,
};
use rsq::messaging::channel::ChannelId;
use rsq::messaging::msg::{ControlMsg, Msg, MsgId, StatusMsg};
use rsq::messaging::peer::PeerId;

fn chan(sender: &str, channel: &str, content: &[u8]) -> Msg {
    Msg::new_channel_msg(PeerId::new(sender), ChannelId(channel.to_string()), content.to_vec())
}

fn same(a: &Msg, b: &Msg) -> bool {
    match (a, b) {
        (Msg::ChannelMsg(x), Msg::ChannelMsg(y)) => {
            x.sender() == y.sender() && x.channel() == y.channel() && x.content() == y.content()
        }
        (Msg::ControlMsg(ControlMsg::ChannelJoin(x)), Msg::ControlMsg(ControlMsg::ChannelJoin(y))) => x == y,
        (Msg::ControlMsg(ControlMsg::ChannelLeave(x)), Msg::ControlMsg(ControlMsg::ChannelLeave(y))) => x == y,
        (Msg::StatusMsg(x), Msg::StatusMsg(y)) => x == y,
        _ => false,
    }
}

#[test]
fn round_trip_every_kind() {
    let msgs = vec![
        chan("A", "k", b"hello"),
        chan("", "", b""),
        chan("pe\u{e9}r", "\u{1f600}", &[0, 255, 7]),
        Msg::channel_join(ChannelId("k".to_string())),
        Msg::channel_leave(ChannelId("k".to_string())),
        Msg::new_status(StatusMsg::Connecting),
        Msg::new_status(StatusMsg::Connected),
        Msg::new_status(StatusMsg::Disconnected),
    ];
    for m in &msgs {
        let payload = encode_msg(m).unwrap();
        assert!(same(&decode_msg(&payload).unwrap(), m));
        let frame = encode_frame(m).unwrap();
        assert_eq!(&frame[4..], &payload[..]);
        assert!(same(&decode_msg_at(&frame, 4).unwrap(), m));
    }
}

#[test]
fn join_frame_bytes() {
    let f = encode_frame(&Msg::channel_join(ChannelId("k".to_string()))).unwrap();
    assert_eq!(f, vec![0, 0, 0, 7, 1, 0, 0, 0, 0, 1, b'k']);
    let f = encode_frame(&Msg::channel_leave(ChannelId("k".to_string()))).unwrap();
    assert_eq!(f, vec![0, 0, 0, 7, 1, 1, 0, 0, 0, 1, b'k']);
}

#[test]
fn channel_msg_bytes() {
    let f = encode_frame(&chan("A", "k", b"hi")).unwrap();
    assert_eq!(
        f,
        vec![0, 0, 0, 17, 0, 0, 0, 0, 1, b'A', 0, 0, 0, 1, b'k', 0, 0, 0, 2, b'h', b'i']
    );
}

#[test]
fn status_frame_bytes() {
    let f = encode_frame(&Msg::new_status(StatusMsg::Disconnected)).unwrap();
    assert_eq!(f, vec![0, 0, 0, 2, 2, 2]);
}

#[test]
fn content_at_the_cap_is_refused() {
    let big = vec![0u8; MAX_FRAME_LEN as usize];
    let m = chan("A", "k", &big);
    assert_eq!(encode_frame(&m).unwrap_err(), CodecError::FrameTooLarge);
    assert_eq!(encode_msg(&m).unwrap_err(), CodecError::FrameTooLarge);
    let fits = vec![0u8; MAX_FRAME_LEN as usize - 15];
    let m = chan("A", "k", &fits);
    let f = encode_frame(&m).unwrap();
    assert_eq!(f.len(), 4 + MAX_FRAME_LEN as usize);
    assert!(same(&decode_msg_at(&f, 4).unwrap(), &m));
}

#[test]
fn malformed_payloads_do_not_decode() {
    assert!(decode_msg(&[]).is_none());
    assert!(decode_msg(&[9]).is_none());
    assert!(decode_msg(&[2, 3]).is_none());
    assert!(decode_msg(&[2, 1, 0]).is_none());
    assert!(decode_msg(&[1, 2, 0, 0, 0, 1, b'k']).is_none());
    assert!(decode_msg(&[1, 0, 0, 0, 0, 2, b'k']).is_none());
    assert!(decode_msg(&[1, 0, 0, 0, 0, 1, 0xff]).is_none());
    let mut trailing = encode_msg(&chan("A", "k", b"x")).unwrap();
    trailing.push(0);
    assert!(decode_msg(&trailing).is_none());
}

#[test]
fn header_is_read_without_content() {
    let f = encode_frame(&chan("A", "k", b"payload")).unwrap();
    let h = decode_header_at(&f, 4).unwrap();
    assert_eq!(h.sender(), &PeerId::new("A"));
    assert_eq!(h.channel(), &ChannelId("k".to_string()));
    let cut = &f[..15];
    assert!(decode_header_at(cut, 4).is_some());
    assert!(decode_msg_at(cut, 4).is_none());
    let join = encode_frame(&Msg::channel_join(ChannelId("k".to_string()))).unwrap();
    assert!(decode_header_at(&join, 4).is_none());
}

#[test]
fn frame_buffer_reports_what_it_needs() {
    let f = encode_frame(&chan("A", "k", b"abc")).unwrap();
    let mut buf = FrameBuffer::new();
    assert!(matches!(buf.next_frame(), FrameStatus::Need(4)));
    buf.extend(&f[..2]);
    assert!(matches!(buf.next_frame(), FrameStatus::Need(2)));
    buf.extend(&f[2..6]);
    let rest = f.len() - 6;
    match buf.next_frame() {
        FrameStatus::Need(n) => assert_eq!(n, rest),
        other => panic!("{:?}", other),
    }
    buf.extend(&f[6..]);
    let g = encode_frame(&Msg::new_status(StatusMsg::Connected)).unwrap();
    buf.extend(&g);
    match buf.next_frame() {
        FrameStatus::Complete(v) => assert_eq!(v, f),
        other => panic!("{:?}", other),
    }
    match buf.next_frame() {
        FrameStatus::Complete(v) => assert_eq!(v, g),
        other => panic!("{:?}", other),
    }
    assert_eq!(buf.len(), 0);
}

#[test]
fn frame_buffer_refuses_oversized_prefix() {
    let mut buf = FrameBuffer::new();
    let n = MAX_FRAME_LEN + 1;
    buf.extend(&n.to_be_bytes());
    assert!(matches!(buf.next_frame(), FrameStatus::TooLarge));
    let mut ok = FrameBuffer::new();
    ok.extend(&MAX_FRAME_LEN.to_be_bytes());
    match ok.next_frame() {
        FrameStatus::Need(k) => assert_eq!(k, MAX_FRAME_LEN as usize),
        other => panic!("{:?}", other),
    }
}

#[test]
fn fnv_digest_values() {
    assert_eq!(digest(&[]), 0xcbf29ce484222325);
    assert_eq!(digest(b"a"), 0xaf63dc4c8601ec8c);
    assert_eq!(digest(b"foobar"), 0x85944171f73967e8);
}

#[test]
fn message_id_is_digest_of_encoding() {
    let m = chan("A", "k", b"hello");
    assert_eq!(m.get_id(), MsgId(digest(&encode_msg(&m).unwrap())));
    assert_ne!(m.get_id(), chan("A", "k", b"hellO").get_id());
    let s = Msg::new_status(StatusMsg::Connected);
    assert_eq!(s.get_id(), MsgId(digest(&[2, 1])));
}

#[test]
fn frame_buffer_keeps_order_across_compaction() {
    let frames: Vec<Vec<u8>> = (0..5u8)
        .map(|i| encode_frame(&chan("A", "k", &[i; 3])).unwrap())
        .collect();
    let mut buf = FrameBuffer::new();
    for f in &frames[..3] {
        buf.extend(f);
    }
    let mut taken = Vec::new();
    for _ in 0..2 {
        match buf.next_frame() {
            FrameStatus::Complete(v) => taken.push(v),
            other => panic!("{:?}", other),
        }
    }
    buf.extend(&frames[3]);
    buf.extend(&frames[4][..5]);
    buf.extend(&frames[4][5..]);
    while let FrameStatus::Complete(v) = buf.next_frame() {
        taken.push(v);
    }
    assert_eq!(taken, frames);
    assert_eq!(buf.len(), 0);
}
