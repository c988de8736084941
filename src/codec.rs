//! The wire format: frames of a big-endian `u32` length followed by an encoded message.
//!
//! A message is encoded as a tag byte followed by its fields. A text field is its UTF-8
//! bytes and a byte field is its bytes, each preceded by its length as a big-endian `u32`.
//! A channel message carries `sender` and `channel` before `content`, so that a router can
//! read who sent it and where without decoding the payload.
use vstd::prelude::*;
use vstd::utf8::{decode_utf8, encode_utf8, valid_utf8};

use crate::messaging::channel::ChannelId;
use crate::messaging::msg::{
    ChannelMsgHdr, ChannelMsgModel, ControlMsg, Msg, MsgId, MsgModel, StatusMsg,
};
use crate::messaging::peer::PeerId;

verus! {

/// Largest payload, in bytes, that a frame may announce.
pub const MAX_FRAME_LEN: u32 = 8388608;

/// Tag of an encoded channel message.
pub const TAG_CHANNEL: u8 = 0;

/// Tag of an encoded control message.
pub const TAG_CONTROL: u8 = 1;

/// Tag of an encoded status message.
pub const TAG_STATUS: u8 = 2;

/// The four bytes of `n`, most significant first.
pub open spec fn be_bytes(n: u32) -> Seq<u8> {
    seq![(n >> 24u32) as u8, (n >> 16u32) as u8, (n >> 8u32) as u8, n as u8]
}

/// The `u32` whose big-endian bytes start at `p[i]`.
#[verifier::opaque]
pub open spec fn be_at(p: Seq<u8>, i: int) -> u32 {
    ((p[i] as u32) << 24u32) | ((p[i + 1] as u32) << 16u32) | ((p[i + 2] as u32) << 8u32) | (
    p[i + 3] as u32)
}

/// A length-prefixed field.
pub open spec fn field_bytes(b: Seq<u8>) -> Seq<u8> {
    be_bytes(b.len() as u32) + b
}

/// The UTF-8 encoding of a text.
#[verifier::opaque]
pub open spec fn utf8_of(s: Seq<char>) -> Seq<u8> {
    encode_utf8(s)
}

/// `b` is well-formed UTF-8.
#[verifier::opaque]
pub open spec fn is_utf8(b: Seq<u8>) -> bool {
    valid_utf8(b)
}

/// The text that well-formed UTF-8 bytes encode.
#[verifier::opaque]
pub open spec fn text_of(b: Seq<u8>) -> Seq<char> {
    decode_utf8(b)
}

proof fn lemma_utf8_round_trip(s: Seq<char>)
    ensures
        is_utf8(utf8_of(s)),
        text_of(utf8_of(s)) == s,
{
    reveal(utf8_of);
    reveal(is_utf8);
    reveal(text_of);
    vstd::utf8::encode_utf8_valid_utf8(s);
    vstd::utf8::encode_utf8_decode_utf8(s);
}

/// A length-prefixed UTF-8 text field.
pub open spec fn text_bytes(s: Seq<char>) -> Seq<u8> {
    field_bytes(utf8_of(s))
}

pub open spec fn status_tag(s: StatusMsg) -> u8 {
    match s {
        StatusMsg::Connecting => 0,
        StatusMsg::Connected => 1,
        StatusMsg::Disconnected => 2,
    }
}

/// Sub-tag of a join request inside a control message.
pub open spec fn join_tag() -> u8 {
    0
}

/// Sub-tag of a leave request inside a control message.
pub open spec fn leave_tag() -> u8 {
    1
}

/// The encoding of a message.
pub open spec fn msg_bytes(m: MsgModel) -> Seq<u8> {
    match m {
        MsgModel::Channel(c) => seq![TAG_CHANNEL] + text_bytes(c.sender) + text_bytes(c.channel)
            + field_bytes(c.content),
        MsgModel::Join(ch) => seq![TAG_CONTROL, join_tag()] + text_bytes(ch),
        MsgModel::Leave(ch) => seq![TAG_CONTROL, leave_tag()] + text_bytes(ch),
        MsgModel::Status(s) => seq![TAG_STATUS, status_tag(s)],
    }
}

/// The frame that carries a message: its encoded length, then the encoding.
pub open spec fn frame_bytes(m: MsgModel) -> Seq<u8> {
    be_bytes(msg_bytes(m).len() as u32) + msg_bytes(m)
}

/// Every length field of the encoding holds its length.
pub open spec fn fits(m: MsgModel) -> bool {
    match m {
        MsgModel::Channel(c) => utf8_of(c.sender).len() <= u32::MAX && utf8_of(
            c.channel,
        ).len() <= u32::MAX && c.content.len() <= u32::MAX,
        MsgModel::Join(ch) => utf8_of(ch).len() <= u32::MAX,
        MsgModel::Leave(ch) => utf8_of(ch).len() <= u32::MAX,
        MsgModel::Status(_) => true,
    }
}

/// The messages that a frame can carry under the configured cap.
pub open spec fn frameable(m: MsgModel) -> bool {
    fits(m) && msg_bytes(m).len() <= MAX_FRAME_LEN
}

/// Reads the length-prefixed field at `i`: its bytes and the position after it.
pub open spec fn parse_field(p: Seq<u8>, i: int) -> Option<(Seq<u8>, int)> {
    if 0 <= i && i + 4 <= p.len() && i + 4 + be_at(p, i) <= p.len() {
        Some((p.subrange(i + 4, i + 4 + be_at(p, i)), i + 4 + be_at(p, i)))
    } else {
        None
    }
}

/// Reads the text field at `i`: its characters and the position after it.
pub open spec fn parse_text(p: Seq<u8>, i: int) -> Option<(Seq<char>, int)> {
    match parse_field(p, i) {
        Some((b, j)) => if is_utf8(b) {
            Some((text_of(b), j))
        } else {
            None
        },
        None => None,
    }
}

pub open spec fn status_of_tag(t: u8) -> Option<StatusMsg> {
    if t == 0 {
        Some(StatusMsg::Connecting)
    } else if t == 1 {
        Some(StatusMsg::Connected)
    } else if t == 2 {
        Some(StatusMsg::Disconnected)
    } else {
        None
    }
}

/// The message encoded by `p` from position `i` to its end, if any.
pub open spec fn parse_msg_at(p: Seq<u8>, i: int) -> Option<MsgModel> {
    if i < 0 || i >= p.len() {
        None
    } else if p[i] == TAG_CHANNEL {
        match parse_text(p, i + 1) {
            Some((s, j)) => match parse_text(p, j) {
                Some((c, k)) => match parse_field(p, k) {
                    Some((b, e)) => if e == p.len() {
                        Some(MsgModel::Channel(ChannelMsgModel { sender: s, channel: c, content: b }))
                    } else {
                        None
                    },
                    None => None,
                },
                None => None,
            },
            None => None,
        }
    } else if p[i] == TAG_CONTROL && i + 1 < p.len() && (p[i + 1] == join_tag() || p[i + 1]
        == leave_tag()) {
        match parse_text(p, i + 2) {
            Some((ch, e)) => if e != p.len() {
                None
            } else if p[i + 1] == join_tag() {
                Some(MsgModel::Join(ch))
            } else {
                Some(MsgModel::Leave(ch))
            },
            None => None,
        }
    } else if p[i] == TAG_STATUS && i + 2 == p.len() && status_of_tag(p[i + 1]) is Some {
        Some(MsgModel::Status(status_of_tag(p[i + 1]).unwrap()))
    } else {
        None
    }
}

/// The message that a whole payload encodes, if any.
pub open spec fn parse_msg(p: Seq<u8>) -> Option<MsgModel> {
    parse_msg_at(p, 0)
}

/// Sender and channel of the channel message whose encoding starts at `i`; what follows
/// them is not read.
pub open spec fn parse_header_at(p: Seq<u8>, i: int) -> Option<(Seq<char>, Seq<char>)> {
    if 0 <= i < p.len() && p[i] == TAG_CHANNEL {
        match parse_text(p, i + 1) {
            Some((s, j)) => match parse_text(p, j) {
                Some((c, _k)) => Some((s, c)),
                None => None,
            },
            None => None,
        }
    } else {
        None
    }
}

proof fn lemma_be_round_trip(n: u32)
    ensures
        be_at(be_bytes(n), 0) == n,
{
    reveal(be_at);
    assert(((((n >> 24u32) as u8) as u32) << 24u32) | ((((n >> 16u32) as u8) as u32) << 16u32)
        | ((((n >> 8u32) as u8) as u32) << 8u32) | ((n as u8) as u32) == n) by (bit_vector);
}

proof fn lemma_parse_field(pre: Seq<u8>, b: Seq<u8>, post: Seq<u8>)
    requires
        b.len() <= u32::MAX,
    ensures
        parse_field(pre + field_bytes(b) + post, pre.len() as int) == Some(
            (b, (pre.len() + 4 + b.len()) as int),
        ),
{
    let p = pre + field_bytes(b) + post;
    let i = pre.len() as int;
    lemma_be_round_trip(b.len() as u32);
    assert(p.subrange(i, i + 4) =~= be_bytes(b.len() as u32));
    assert(be_at(p, i) == be_at(be_bytes(b.len() as u32), 0)) by {
        reveal(be_at);
        assert(p[i] == be_bytes(b.len() as u32)[0]);
        assert(p[i + 1] == be_bytes(b.len() as u32)[1]);
        assert(p[i + 2] == be_bytes(b.len() as u32)[2]);
        assert(p[i + 3] == be_bytes(b.len() as u32)[3]);
    }
    assert(p.subrange(i + 4, i + 4 + b.len()) =~= b);
}

proof fn lemma_parse_text(pre: Seq<u8>, s: Seq<char>, post: Seq<u8>)
    requires
        utf8_of(s).len() <= u32::MAX,
    ensures
        parse_text(pre + text_bytes(s) + post, pre.len() as int) == Some(
            (s, (pre.len() + text_bytes(s).len()) as int),
        ),
{
    let b = utf8_of(s);
    let i = pre.len() as int;
    let p = pre + text_bytes(s) + post;
    lemma_utf8_round_trip(s);
    lemma_parse_field(pre, b, post);
    assert(text_bytes(s) == field_bytes(b));
    assert(parse_field(p, i) == Some((b, i + 4 + b.len())));
    assert(text_bytes(s).len() == 4 + b.len());
}

proof fn lemma_decode_channel_at(pre: Seq<u8>, c: ChannelMsgModel)
    requires
        fits(MsgModel::Channel(c)),
    ensures
        parse_msg_at(pre + msg_bytes(MsgModel::Channel(c)), pre.len() as int) == Some(
            MsgModel::Channel(c),
        ),
{
    let p = pre + msg_bytes(MsgModel::Channel(c));
    let i = pre.len() as int;
    let ts = text_bytes(c.sender);
    let tc = text_bytes(c.channel);
    let fb = field_bytes(c.content);
    let at_sender = pre + seq![TAG_CHANNEL];
    assert(p =~= at_sender + ts + (tc + fb));
    lemma_parse_text(at_sender, c.sender, tc + fb);
    let at_channel = at_sender + ts;
    assert(p =~= at_channel + tc + fb);
    lemma_parse_text(at_channel, c.channel, fb);
    let at_content = at_channel + tc;
    assert(p =~= at_content + fb + Seq::<u8>::empty());
    lemma_parse_field(at_content, c.content, Seq::<u8>::empty());
    assert(p[i] == TAG_CHANNEL);
}

proof fn lemma_decode_control_at(pre: Seq<u8>, sub: u8, ch: Seq<char>)
    requires
        utf8_of(ch).len() <= u32::MAX,
        sub == join_tag() || sub == leave_tag(),
    ensures
        parse_text(
            pre + (seq![TAG_CONTROL, sub] + text_bytes(ch)),
            pre.len() + 2 as int,
        ) == Some((ch, (pre + (seq![TAG_CONTROL, sub] + text_bytes(ch))).len() as int)),
        (pre + (seq![TAG_CONTROL, sub] + text_bytes(ch)))[pre.len() as int] == TAG_CONTROL,
        (pre + (seq![TAG_CONTROL, sub] + text_bytes(ch)))[pre.len() + 1 as int] == sub,
{
    let p = pre + (seq![TAG_CONTROL, sub] + text_bytes(ch));
    let at_sender = pre + seq![TAG_CONTROL, sub];
    assert(p =~= at_sender + text_bytes(ch) + Seq::<u8>::empty());
    lemma_parse_text(at_sender, ch, Seq::<u8>::empty());
    assert(p[pre.len() as int] == at_sender[pre.len() as int]);
    assert(p[pre.len() + 1 as int] == at_sender[pre.len() + 1 as int]);
}

/// Decoding the encoding of a message gives the message back, wherever the encoding stands
/// after a prefix.
pub proof fn lemma_decode_encoded_at(pre: Seq<u8>, m: MsgModel)
    requires
        fits(m),
    ensures
        parse_msg_at(pre + msg_bytes(m), pre.len() as int) == Some(m),
{
    let p = pre + msg_bytes(m);
    let i = pre.len() as int;
    match m {
        MsgModel::Channel(c) => {
            lemma_decode_channel_at(pre, c);
        },
        MsgModel::Join(ch) => {
            lemma_decode_control_at(pre, join_tag(), ch);
        },
        MsgModel::Leave(ch) => {
            lemma_decode_control_at(pre, leave_tag(), ch);
        },
        MsgModel::Status(s) => {
            assert(p[i] == TAG_STATUS && p[i + 1] == status_tag(s));
        },
    }
}

/// Round trip: the payload that encodes a message decodes to that message.
pub proof fn lemma_decode_encoded(m: MsgModel)
    requires
        fits(m),
    ensures
        parse_msg(msg_bytes(m)) == Some(m),
{
    lemma_decode_encoded_at(Seq::empty(), m);
    assert(Seq::<u8>::empty() + msg_bytes(m) =~= msg_bytes(m));
}

/// Round trip on frames: the frame of a message announces the length of its payload, and
/// the payload after the four length bytes decodes to the message.
pub proof fn lemma_frame_round_trip(m: MsgModel)
    requires
        frameable(m),
    ensures
        frame_bytes(m).len() >= 4,
        be_at(frame_bytes(m), 0) == msg_bytes(m).len(),
        frame_bytes(m).len() == 4 + be_at(frame_bytes(m), 0),
        parse_msg_at(frame_bytes(m), 4) == Some(m),
{
    let n = msg_bytes(m).len() as u32;
    lemma_be_round_trip(n);
    assert(frame_bytes(m).subrange(0, 4) =~= be_bytes(n));
    assert(be_at(frame_bytes(m), 0) == be_at(be_bytes(n), 0)) by {
        reveal(be_at);
        assert(frame_bytes(m)[0] == be_bytes(n)[0]);
        assert(frame_bytes(m)[1] == be_bytes(n)[1]);
        assert(frame_bytes(m)[2] == be_bytes(n)[2]);
        assert(frame_bytes(m)[3] == be_bytes(n)[3]);
    }
    lemma_decode_encoded_at(be_bytes(n), m);
}

} // verus!

verus! {

/// Why a message cannot be framed.
#[derive(Clone, Copy, Debug, PartialEq, Eq, Structural)]
pub enum CodecError {
    /// The encoded message is longer than [`MAX_FRAME_LEN`].
    FrameTooLarge,
}

/// Relies on `String::from_utf8`: it succeeds exactly on well-formed UTF-8 and then holds
/// the text that the bytes encode.
#[verifier::external_body]
fn string_from_utf8(v: Vec<u8>) -> (r: Option<String>)
    ensures
        match r {
            Some(s) => is_utf8(v@) && s@ == text_of(v@),
            None => !is_utf8(v@),
        },
{
    String::from_utf8(v).ok()
}

fn push_u32_be(out: &mut Vec<u8>, n: u32)
    ensures
        final(out)@ == old(out)@ + be_bytes(n),
{
    out.push((n >> 24u32) as u8);
    out.push((n >> 16u32) as u8);
    out.push((n >> 8u32) as u8);
    out.push(n as u8);
    assert(final(out)@ =~= old(out)@ + be_bytes(n));
}

fn push_all(out: &mut Vec<u8>, b: &[u8])
    ensures
        final(out)@ == old(out)@ + b@,
{
    let ghost start = out@;
    let mut k: usize = 0;
    while k < b.len()
        invariant
            k <= b@.len(),
            out@ == start + b@.subrange(0, k as int),
        decreases b@.len() - k,
    {
        out.push(b[k]);
        k = k + 1;
        assert(out@ =~= start + b@.subrange(0, k as int));
    }
    assert(b@.subrange(0, b@.len() as int) =~= b@);
}

fn push_field(out: &mut Vec<u8>, b: &[u8])
    requires
        b@.len() <= u32::MAX,
    ensures
        final(out)@ == old(out)@ + field_bytes(b@),
{
    push_u32_be(out, b.len() as u32);
    push_all(out, b);
    assert(final(out)@ =~= old(out)@ + field_bytes(b@));
}

fn utf8_bytes(s: &str) -> (r: &[u8])
    ensures
        r@ == utf8_of(s@),
{
    reveal(utf8_of);
    s.as_bytes()
}

proof fn lemma_msg_len(m: MsgModel)
    ensures
        msg_bytes(m).len() == match m {
            MsgModel::Channel(c) => 13 + utf8_of(c.sender).len() + utf8_of(c.channel).len()
                + c.content.len(),
            MsgModel::Join(ch) => 6 + utf8_of(ch).len(),
            MsgModel::Leave(ch) => 6 + utf8_of(ch).len(),
            MsgModel::Status(_) => 2,
        },
{
}

/// Length of the encoding of `m`, or `None` where it would exceed [`MAX_FRAME_LEN`].
fn encoded_len(m: &Msg) -> (r: Option<u32>)
    ensures
        match r {
            Some(n) => frameable(m@) && n == msg_bytes(m@).len(),
            None => !frameable(m@),
        },
{
    proof {
        lemma_msg_len(m@);
    }
    let max = MAX_FRAME_LEN as usize;
    match m {
        Msg::ChannelMsg(c) => {
            let s = utf8_bytes(c.sender().as_str()).len();
            let ch = utf8_bytes(c.channel().0.as_str()).len();
            let b = c.content().len();
            if s > max || ch > max || b > max {
                return None;
            }
            let total = 13 + s as u64 + ch as u64 + b as u64;
            if total > MAX_FRAME_LEN as u64 {
                None
            } else {
                Some(total as u32)
            }
        },
        Msg::ControlMsg(ControlMsg::ChannelJoin(ch)) | Msg::ControlMsg(
            ControlMsg::ChannelLeave(ch),
        ) => {
            let n = utf8_bytes(ch.0.as_str()).len();
            if n > max - 6 {
                None
            } else {
                Some((n + 6) as u32)
            }
        },
        Msg::StatusMsg(_) => Some(2),
    }
}

fn push_msg(out: &mut Vec<u8>, m: &Msg)
    requires
        fits(m@),
    ensures
        final(out)@ == old(out)@ + msg_bytes(m@),
{
    let ghost start = out@;
    match m {
        Msg::ChannelMsg(c) => {
            out.push(TAG_CHANNEL);
            push_field(out, utf8_bytes(c.sender().as_str()));
            push_field(out, utf8_bytes(c.channel().0.as_str()));
            push_field(out, c.content().as_slice());
        },
        Msg::ControlMsg(ControlMsg::ChannelJoin(ch)) => {
            out.push(TAG_CONTROL);
            out.push(0);
            push_field(out, utf8_bytes(ch.0.as_str()));
        },
        Msg::ControlMsg(ControlMsg::ChannelLeave(ch)) => {
            out.push(TAG_CONTROL);
            out.push(1);
            push_field(out, utf8_bytes(ch.0.as_str()));
        },
        Msg::StatusMsg(s) => {
            out.push(TAG_STATUS);
            let t: u8 = match s {
                StatusMsg::Connecting => 0,
                StatusMsg::Connected => 1,
                StatusMsg::Disconnected => 2,
            };
            out.push(t);
        },
    }
    assert(out@ =~= start + msg_bytes(m@));
}

/// The encoding of `m` without its frame.
pub fn encode_msg(m: &Msg) -> (r: Result<Vec<u8>, CodecError>)
    ensures
        match r {
            Ok(v) => frameable(m@) && v@ == msg_bytes(m@),
            Err(e) => !frameable(m@) && e == CodecError::FrameTooLarge,
        },
{
    match encoded_len(m) {
        None => Err(CodecError::FrameTooLarge),
        Some(_) => {
            let mut out: Vec<u8> = Vec::new();
            push_msg(&mut out, m);
            assert(out@ =~= msg_bytes(m@));
            Ok(out)
        },
    }
}

/// The frame that carries `m`: the length of its encoding, then the encoding.
pub fn encode_frame(m: &Msg) -> (r: Result<Vec<u8>, CodecError>)
    ensures
        match r {
            Ok(v) => frameable(m@) && v@ == frame_bytes(m@),
            Err(e) => !frameable(m@) && e == CodecError::FrameTooLarge,
        },
{
    match encoded_len(m) {
        None => Err(CodecError::FrameTooLarge),
        Some(n) => {
            let mut out: Vec<u8> = Vec::new();
            push_u32_be(&mut out, n);
            push_msg(&mut out, m);
            assert(out@ =~= frame_bytes(m@));
            Ok(out)
        },
    }
}

} // verus!

verus! {

fn read_u32_be(p: &[u8], i: usize) -> (r: u32)
    requires
        i + 4 <= p@.len(),
    ensures
        r == be_at(p@, i as int),
{
    reveal(be_at);
    ((p[i] as u32) << 24u32) | ((p[i + 1] as u32) << 16u32) | ((p[i + 2] as u32) << 8u32) | (p[i
        + 3] as u32)
}

fn copy_range(p: &[u8], a: usize, b: usize) -> (r: Vec<u8>)
    requires
        a <= b <= p@.len(),
    ensures
        r@ == p@.subrange(a as int, b as int),
{
    let mut out: Vec<u8> = Vec::new();
    let mut k: usize = a;
    while k < b
        invariant
            a <= k <= b <= p@.len(),
            out@ == p@.subrange(a as int, k as int),
        decreases b - k,
    {
        out.push(p[k]);
        k = k + 1;
        assert(out@ =~= p@.subrange(a as int, k as int));
    }
    out
}

/// End of the field that starts at `i`.
fn field_end(p: &[u8], i: usize) -> (r: Option<usize>)
    ensures
        match r {
            Some(e) => i + 4 <= e && parse_field(p@, i as int) == Some(
                (p@.subrange(i + 4, e as int), e as int),
            ),
            None => parse_field(p@, i as int) is None,
        },
{
    if i > p.len() || p.len() - i < 4 {
        return None;
    }
    let n = read_u32_be(p, i);
    if (p.len() - i - 4) < n as usize {
        None
    } else {
        Some(i + 4 + n as usize)
    }
}

fn read_text(p: &[u8], i: usize) -> (r: Option<(String, usize)>)
    ensures
        match r {
            Some((t, e)) => parse_text(p@, i as int) == Some((t@, e as int)),
            None => parse_text(p@, i as int) is None,
        },
{
    match field_end(p, i) {
        None => None,
        Some(e) => match string_from_utf8(copy_range(p, i + 4, e)) {
            Some(t) => Some((t, e)),
            None => None,
        },
    }
}

/// Decodes the message whose encoding fills `p` from `i` to its end.
pub fn decode_msg_at(p: &[u8], i: usize) -> (r: Option<Msg>)
    ensures
        match r {
            Some(m) => parse_msg_at(p@, i as int) == Some(m@),
            None => parse_msg_at(p@, i as int) is None,
        },
{
    if i >= p.len() {
        return None;
    }
    let tag = p[i];
    if tag == TAG_CHANNEL {
        let (s, j) = match read_text(p, i + 1) {
            Some(x) => x,
            None => return None,
        };
        let (c, k) = match read_text(p, j) {
            Some(x) => x,
            None => return None,
        };
        match field_end(p, k) {
            Some(e) => if e == p.len() {
                Some(
                    Msg::new_channel_msg(
                        PeerId::from_string(s),
                        ChannelId(c),
                        copy_range(p, k + 4, e),
                    ),
                )
            } else {
                None
            },
            None => None,
        }
    } else if tag == TAG_CONTROL && i + 1 < p.len() && (p[i + 1] == 0 || p[i + 1] == 1) {
        match read_text(p, i + 2) {
            Some((ch, e)) => if e != p.len() {
                None
            } else if p[i + 1] == 0 {
                Some(Msg::channel_join(ChannelId(ch)))
            } else {
                Some(Msg::channel_leave(ChannelId(ch)))
            },
            None => None,
        }
    } else if tag == TAG_STATUS && p.len() - i == 2 {
        let t = p[i + 1];
        if t == 0 {
            Some(Msg::new_status(StatusMsg::Connecting))
        } else if t == 1 {
            Some(Msg::new_status(StatusMsg::Connected))
        } else if t == 2 {
            Some(Msg::new_status(StatusMsg::Disconnected))
        } else {
            None
        }
    } else {
        None
    }
}

/// Decodes a whole payload.
pub fn decode_msg(p: &[u8]) -> (r: Option<Msg>)
    ensures
        match r {
            Some(m) => parse_msg(p@) == Some(m@),
            None => parse_msg(p@) is None,
        },
{
    decode_msg_at(p, 0)
}

/// Reads only the sender and channel of the channel message whose encoding starts at `i`.
pub fn decode_header_at(p: &[u8], i: usize) -> (r: Option<ChannelMsgHdr>)
    ensures
        match r {
            Some(h) => parse_header_at(p@, i as int) == Some(h@),
            None => parse_header_at(p@, i as int) is None,
        },
{
    if i >= p.len() || p[i] != TAG_CHANNEL {
        return None;
    }
    let (s, j) = match read_text(p, i + 1) {
        Some(x) => x,
        None => return None,
    };
    match read_text(p, j) {
        Some((c, _k)) => Some(ChannelMsgHdr::new(PeerId::from_string(s), ChannelId(c))),
        None => None,
    }
}

/// The header of a channel message that carries a whole message agrees with it.
pub proof fn lemma_header_of_channel_msg(p: Seq<u8>, i: int, c: ChannelMsgModel)
    requires
        parse_msg_at(p, i) == Some(MsgModel::Channel(c)),
    ensures
        parse_header_at(p, i) == Some((c.sender, c.channel)),
{
}

} // verus!

verus! {

/// What the bytes gathered so far hold at their front.
#[derive(Debug)]
pub enum FrameStatus {
    /// One whole frame, length prefix included.
    Complete(Vec<u8>),
    /// At least this many more bytes are needed before a frame is whole.
    Need(usize),
    /// The length prefix announces more than [`MAX_FRAME_LEN`] bytes.
    TooLarge,
}

/// An append-only buffer of received bytes, from which whole frames are taken in order.
pub struct FrameBuffer {
    buf: Vec<u8>,
    /// Bytes before this position were already taken as frames.
    start: usize,
}

impl View for FrameBuffer {
    type V = Seq<u8>;

    closed spec fn view(&self) -> Seq<u8> {
        self.buf@.subrange(self.start as int, self.buf@.len() as int)
    }
}

proof fn lemma_be_at_shift(p: Seq<u8>, a: int)
    requires
        0 <= a,
        a + 4 <= p.len(),
    ensures
        be_at(p, a) == be_at(p.subrange(a, p.len() as int), 0),
{
    reveal(be_at);
    let q = p.subrange(a, p.len() as int);
    assert(q[0] == p[a] && q[1] == p[a + 1] && q[2] == p[a + 2] && q[3] == p[a + 3]);
}

/// Length of the payload that the frame at the front of `b` announces.
pub open spec fn announced_len(b: Seq<u8>) -> int {
    be_at(b, 0) as int
}

/// The whole frame at the front of `b` and what follows it, where the front holds one.
pub open spec fn split_frame(b: Seq<u8>) -> Option<(Seq<u8>, Seq<u8>)> {
    if b.len() >= 4 && announced_len(b) <= MAX_FRAME_LEN && b.len() >= 4 + announced_len(b) {
        Some((b.subrange(0, 4 + announced_len(b)), b.subrange(4 + announced_len(b), b.len() as int)))
    } else {
        None
    }
}

/// Frames leave a buffer in the order in which they arrived: from the frames of two
/// messages, and whatever follows them, the first frame is taken whole and the second
/// stays at the front.
pub proof fn lemma_frames_in_order(m1: MsgModel, m2: MsgModel, rest: Seq<u8>)
    requires
        frameable(m1),
    ensures
        split_frame(frame_bytes(m1) + frame_bytes(m2) + rest) == Some(
            (frame_bytes(m1), frame_bytes(m2) + rest),
        ),
{
    let f = frame_bytes(m1);
    let b = f + frame_bytes(m2) + rest;
    lemma_frame_round_trip(m1);
    assert(announced_len(b) == announced_len(f)) by {
        reveal(be_at);
        assert(b[0] == f[0] && b[1] == f[1] && b[2] == f[2] && b[3] == f[3]);
    }
    assert(b.subrange(0, f.len() as int) =~= f);
    assert(b.subrange(f.len() as int, b.len() as int) =~= frame_bytes(m2) + rest);
}

impl FrameBuffer {
    pub closed spec fn wf(&self) -> bool {
        self.start <= self.buf@.len()
    }

    pub fn new() -> (r: FrameBuffer)
        ensures
            r.wf(),
            r@ == Seq::<u8>::empty(),
    {
        let r = FrameBuffer { buf: Vec::new(), start: 0 };
        assert(r@ =~= Seq::<u8>::empty());
        r
    }

    pub fn len(&self) -> (r: usize)
        requires
            self.wf(),
        ensures
            r == self@.len(),
    {
        self.buf.len() - self.start
    }

    /// Appends received bytes. The space of frames already taken is given back once it is
    /// at least as large as what is left, so each byte is moved a bounded number of times.
    pub fn extend(&mut self, data: &[u8])
        requires
            old(self).wf(),
        ensures
            final(self).wf(),
            final(self)@ == old(self)@ + data@,
    {
        let ghost before = self@;
        if self.start > 0 && self.start >= self.buf.len() - self.start {
            let rest = copy_range(self.buf.as_slice(), self.start, self.buf.len());
            self.buf = rest;
            self.start = 0;
            assert(self@ =~= before);
        }
        let ghost mid = self.buf@;
        push_all(&mut self.buf, data);
        assert(self@ =~= before + data@) by {
            assert(self.buf@ == mid + data@);
            assert(mid.subrange(self.start as int, mid.len() as int) == before);
        }
    }

    /// Takes the frame at the front, if it is whole. A partial frame, or one that is too
    /// large, leaves the buffer as it was.
    pub fn next_frame(&mut self) -> (r: FrameStatus)
        requires
            old(self).wf(),
        ensures
            final(self).wf(),
            old(self)@.len() < 4 ==> r == FrameStatus::Need((4 - old(self)@.len()) as usize)
                && final(self)@ == old(self)@,
            old(self)@.len() >= 4 && announced_len(old(self)@) > MAX_FRAME_LEN ==> r
                == FrameStatus::TooLarge && final(self)@ == old(self)@,
            old(self)@.len() >= 4 && announced_len(old(self)@) <= MAX_FRAME_LEN && old(self)@.len()
                < 4 + announced_len(old(self)@) ==> r == FrameStatus::Need(
                (4 + announced_len(old(self)@) - old(self)@.len()) as usize,
            ) && final(self)@ == old(self)@,
            split_frame(old(self)@) matches Some((f, rest)) ==> match r {
                FrameStatus::Complete(v) => v@ == f && final(self)@ == rest,
                _ => false,
            },
    {
        let ghost v = self@;
        let len = self.buf.len() - self.start;
        if len < 4 {
            return FrameStatus::Need(4 - len);
        }
        let n = read_u32_be(self.buf.as_slice(), self.start);
        proof {
            lemma_be_at_shift(self.buf@, self.start as int);
        }
        if n > MAX_FRAME_LEN {
            return FrameStatus::TooLarge;
        }
        let whole = 4 + n as usize;
        if len < whole {
            return FrameStatus::Need(whole - len);
        }
        let frame = copy_range(self.buf.as_slice(), self.start, self.start + whole);
        self.start = self.start + whole;
        assert(frame@ =~= v.subrange(0, whole as int));
        assert(self@ =~= v.subrange(whole as int, v.len() as int));
        FrameStatus::Complete(frame)
    }
}

} // verus!

verus! {

/// Offset basis of the 64-bit FNV-1a digest.
pub const FNV_OFFSET: u64 = 0xcbf29ce484222325;

/// Prime of the 64-bit FNV-1a digest.
pub const FNV_PRIME: u64 = 0x100000001b3;

/// The 64-bit FNV-1a digest of `b`.
pub open spec fn fnv1a(b: Seq<u8>) -> u64
    decreases b.len(),
{
    if b.len() == 0 {
        FNV_OFFSET
    } else {
        vstd::wrapping::u64_specs::wrapping_mul(
            fnv1a(b.drop_last()) ^ (b.last() as u64),
            FNV_PRIME,
        )
    }
}

/// The 64-bit FNV-1a digest of `b`.
pub fn digest(b: &[u8]) -> (r: u64)
    ensures
        r == fnv1a(b@),
{
    let mut h: u64 = FNV_OFFSET;
    let mut k: usize = 0;
    while k < b.len()
        invariant
            k <= b@.len(),
            h == fnv1a(b@.subrange(0, k as int)),
        decreases b@.len() - k,
    {
        proof {
            assert(b@.subrange(0, k + 1).drop_last() =~= b@.subrange(0, k as int));
        }
        h = (h ^ (b[k] as u64)).wrapping_mul(FNV_PRIME);
        k = k + 1;
    }
    assert(b@.subrange(0, b@.len() as int) =~= b@);
    h
}

impl Msg {
    /// The digest of the message's encoding.
    pub fn get_id(&self) -> (r: MsgId)
        requires
            fits(self@),
        ensures
            r == MsgId(fnv1a(msg_bytes(self@))),
    {
        let mut out: Vec<u8> = Vec::new();
        push_msg(&mut out, self);
        assert(out@ =~= msg_bytes(self@));
        MsgId(digest(out.as_slice()))
    }
}

} // verus!
