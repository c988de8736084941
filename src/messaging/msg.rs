use vstd::prelude::*;

use super::channel::ChannelId;
use super::peer::PeerId;

verus! {

/// Abstract value of a [`ChannelMsg`]: who sent it, where, and the opaque payload.
pub struct ChannelMsgModel {
    pub sender: Seq<char>,
    pub channel: Seq<char>,
    pub content: Seq<u8>,
}

/// Abstract value of a [`Msg`].
pub enum MsgModel {
    Channel(ChannelMsgModel),
    Join(Seq<char>),
    Leave(Seq<char>),
    Status(StatusMsg),
}

/// A message of the protocol.
#[derive(Debug)]
pub enum Msg {
    ChannelMsg(ChannelMsg),
    ControlMsg(ControlMsg),
    StatusMsg(StatusMsg),
}

/// A payload published by `sender` on `channel`.
#[derive(Debug)]
pub struct ChannelMsg {
    sender: PeerId,
    channel: ChannelId,
    content: Vec<u8>,
}

/// The leading part of an encoded [`ChannelMsg`]: enough to route it.
#[derive(Debug)]
pub struct ChannelMsgHdr {
    sender: PeerId,
    channel: ChannelId,
}

/// Subscription requests sent by a client.
#[derive(Debug)]
pub enum ControlMsg {
    ChannelJoin(ChannelId),
    ChannelLeave(ChannelId),
}

/// Connection state transitions reported locally by the client side.
#[derive(Clone, Copy, Debug, PartialEq, Eq, Structural)]
pub enum StatusMsg {
    Connecting,
    Connected,
    Disconnected,
}

/// Identifier of a message: a digest of its encoding.
#[derive(Clone, Copy, Debug, PartialEq, Eq, Structural)]
pub struct MsgId(pub u64);

impl View for ChannelMsg {
    type V = ChannelMsgModel;

    closed spec fn view(&self) -> ChannelMsgModel {
        ChannelMsgModel { sender: self.sender@, channel: self.channel@, content: self.content@ }
    }
}

impl View for ChannelMsgHdr {
    type V = (Seq<char>, Seq<char>);

    closed spec fn view(&self) -> (Seq<char>, Seq<char>) {
        (self.sender@, self.channel@)
    }
}

impl View for Msg {
    type V = MsgModel;

    open spec fn view(&self) -> MsgModel {
        match self {
            Msg::ChannelMsg(c) => MsgModel::Channel(c@),
            Msg::ControlMsg(ControlMsg::ChannelJoin(ch)) => MsgModel::Join(ch@),
            Msg::ControlMsg(ControlMsg::ChannelLeave(ch)) => MsgModel::Leave(ch@),
            Msg::StatusMsg(s) => MsgModel::Status(*s),
        }
    }
}

impl ChannelMsg {
    pub fn new(sender: PeerId, channel: ChannelId, content: Vec<u8>) -> (r: Self)
        ensures
            r@ == (ChannelMsgModel { sender: sender@, channel: channel@, content: content@ }),
    {
        Self { sender, channel, content }
    }

    pub fn sender(&self) -> (r: &PeerId)
        ensures
            r@ == self@.sender,
    {
        &self.sender
    }

    pub fn channel(&self) -> (r: &ChannelId)
        ensures
            r@ == self@.channel,
    {
        &self.channel
    }

    pub fn content(&self) -> (r: &Vec<u8>)
        ensures
            r@ == self@.content,
    {
        &self.content
    }
}

impl ChannelMsgHdr {
    pub fn new(sender: PeerId, channel: ChannelId) -> (r: Self)
        ensures
            r@ == (sender@, channel@),
    {
        Self { sender, channel }
    }

    pub fn sender(&self) -> (r: &PeerId)
        ensures
            r@ == self@.0,
    {
        &self.sender
    }

    pub fn channel(&self) -> (r: &ChannelId)
        ensures
            r@ == self@.1,
    {
        &self.channel
    }
}

impl Msg {
    pub fn new_channel_msg(sender: PeerId, channel: ChannelId, content: Vec<u8>) -> (r: Self)
        ensures
            r@ == MsgModel::Channel(
                ChannelMsgModel { sender: sender@, channel: channel@, content: content@ },
            ),
    {
        Self::ChannelMsg(ChannelMsg::new(sender, channel, content))
    }

    pub fn channel_join(channel: ChannelId) -> (r: Self)
        ensures
            r@ == MsgModel::Join(channel@),
    {
        Self::ControlMsg(ControlMsg::ChannelJoin(channel))
    }

    pub fn channel_leave(channel: ChannelId) -> (r: Self)
        ensures
            r@ == MsgModel::Leave(channel@),
    {
        Self::ControlMsg(ControlMsg::ChannelLeave(channel))
    }

    pub fn new_status(status: StatusMsg) -> (r: Self)
        ensures
            r@ == MsgModel::Status(status),
    {
        Self::StatusMsg(status)
    }
}

} // verus!
