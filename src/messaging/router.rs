//! The registry of connected peers and live channels, and the dispatch of inbound frames.
use vstd::prelude::*;

use super::channel::{Channel, ChannelId};
use super::msg::{ControlMsg, Msg, MsgModel};
use super::peer::{bytes_content, bytes_from_vec, Peer, PeerId};
use crate::codec::{decode_header_at, decode_msg_at, parse_header_at, parse_msg_at};
use super::peer_map::{
    delivered_count, fanout_result, has_id, offers_made, survivors, unique_ids, upserted, without,
    Entry, Offer, PeerMap,
};

verus! {

/// Abstract value of a channel: its name and its subscriptions.
pub type ChannelModel = (Seq<char>, Seq<Entry>);

/// No two channels share a name.
pub open spec fn unique_keys(cs: Seq<ChannelModel>) -> bool {
    forall|i: int, j: int| 0 <= i < j < cs.len() ==> cs[i].0 != cs[j].0
}

/// Some channel has this name.
pub open spec fn has_key(cs: Seq<ChannelModel>, id: Seq<char>) -> bool {
    exists|i: int| 0 <= i < cs.len() && cs[i].0 == id
}

/// Position of the channel with this name, where there is one.
pub open spec fn key_index(cs: Seq<ChannelModel>, id: Seq<char>) -> int {
    choose|i: int| 0 <= i < cs.len() && cs[i].0 == id
}

/// The subscriptions of the channel with this name; none where there is no such channel.
pub open spec fn subscribers_of(cs: Seq<ChannelModel>, id: Seq<char>) -> Seq<Entry> {
    if has_key(cs, id) {
        cs[key_index(cs, id)].1
    } else {
        Seq::empty()
    }
}

/// The channels after `e` joins channel `id`, which is created at the end if missing.
pub open spec fn attached(cs: Seq<ChannelModel>, id: Seq<char>, e: Entry) -> Seq<ChannelModel> {
    if has_key(cs, id) {
        cs.update(key_index(cs, id), (id, upserted(cs[key_index(cs, id)].1, e)))
    } else {
        cs.push((id, seq![e]))
    }
}

/// The channels after peer `p` leaves channel `id`; a channel left without subscribers is
/// dropped.
pub open spec fn detached(cs: Seq<ChannelModel>, id: Seq<char>, p: Seq<char>) -> Seq<
    ChannelModel,
> {
    if has_key(cs, id) {
        let k = key_index(cs, id);
        let rest = without(cs[k].1, p);
        if rest.len() == 0 {
            cs.remove(k)
        } else {
            cs.update(k, (id, rest))
        }
    } else {
        cs
    }
}

/// The channels once channel `id` has the subscriptions `subs`; a missing channel is
/// created at the end.
pub open spec fn forwarded(cs: Seq<ChannelModel>, id: Seq<char>, subs: Seq<Entry>) -> Seq<
    ChannelModel,
> {
    if has_key(cs, id) {
        cs.update(key_index(cs, id), (id, subs))
    } else {
        cs.push((id, subs))
    }
}

/// What a fan-out of `payload` from `sender` on channel `id` can do, for some outcome of
/// the offers: the channel's subscriptions become what [`fanout_result`] allows, no other
/// channel changes, and the log of offers grows by the offers made. A missing channel has
/// no subscriber, so it is created empty, no offer is made and `n` is zero.
pub open spec fn fanned_out(
    before: Seq<ChannelModel>,
    after: Seq<ChannelModel>,
    log_before: Seq<Offer>,
    log_after: Seq<Offer>,
    id: Seq<char>,
    sender: Seq<char>,
    payload: Seq<u8>,
    n: nat,
) -> bool {
    exists|subs: Seq<Entry>|
        fanout_result(subscribers_of(before, id), subs, log_before, log_after, sender, payload, n)
            && after == forwarded(before, id, subs)
}

proof fn lemma_key_index(cs: Seq<ChannelModel>, id: Seq<char>, k: int)
    requires
        unique_keys(cs),
        0 <= k < cs.len(),
        cs[k].0 == id,
    ensures
        has_key(cs, id),
        key_index(cs, id) == k,
{
    let c = key_index(cs, id);
    if c < k {
        assert(cs[c].0 != cs[k].0);
    }
    if c > k {
        assert(cs[k].0 != cs[c].0);
    }
}

/// The process-wide registry of peers and channels.
pub struct Router {
    peers: PeerMap,
    channels: Vec<Channel>,
    log: Ghost<Seq<Offer>>,
}

impl Router {
    /// The connected peers and their egress queues.
    pub closed spec fn peers(&self) -> Seq<Entry> {
        self.peers@
    }

    /// The live channels, in order of creation.
    pub closed spec fn chans(&self) -> Seq<ChannelModel> {
        self.channels@.map_values(|c: Channel| (c.id_view(), c.subs()))
    }

    /// Every offer made in fan-outs through this router, oldest first.
    pub closed spec fn offers(&self) -> Seq<Offer> {
        self.log@
    }

    pub closed spec fn wf(&self) -> bool {
        &&& self.peers.wf()
        &&& unique_keys(self.chans())
        &&& forall|i: int| 0 <= i < self.channels@.len() ==> #[trigger] self.channels@[i].wf()
    }

    pub fn new() -> (r: Router)
        ensures
            r.wf(),
            r.peers() == Seq::<Entry>::empty(),
            r.chans() == Seq::<ChannelModel>::empty(),
            r.offers() == Seq::<Offer>::empty(),
    {
        let r = Router { peers: PeerMap::new(), channels: Vec::new(), log: Ghost(Seq::empty()) };
        assert(r.chans() =~= Seq::<ChannelModel>::empty());
        r
    }

    fn find_channel(&self, id: &ChannelId) -> (r: Option<usize>)
        requires
            self.wf(),
        ensures
            match r {
                Some(k) => k < self.chans().len() && self.chans()[k as int].0 == id@ && key_index(
                    self.chans(),
                    id@,
                ) == k && has_key(self.chans(), id@),
                None => !has_key(self.chans(), id@),
            },
    {
        let mut k: usize = 0;
        while k < self.channels.len()
            invariant
                self.wf(),
                k <= self.chans().len(),
                self.chans().len() == self.channels@.len(),
                forall|j: int| 0 <= j < k ==> self.chans()[j].0 != id@,
            decreases self.channels@.len() - k,
        {
            if self.channels[k].get_id() == id {
                proof {
                    lemma_key_index(self.chans(), id@, k as int);
                }
                return Some(k);
            }
            k = k + 1;
        }
        None
    }

    /// A well-formed router has distinct channel names, and each channel distinct
    /// subscriber ids.
    pub proof fn lemma_wf(&self)
        requires
            self.wf(),
        ensures
            unique_keys(self.chans()),
            unique_ids(self.peers()),
            forall|id: Seq<char>| #[trigger] unique_ids(subscribers_of(self.chans(), id)),
    {
        assert forall|id: Seq<char>| #[trigger] unique_ids(subscribers_of(self.chans(), id)) by {
            if has_key(self.chans(), id) {
                let k = key_index(self.chans(), id);
                assert(self.channels@[k].wf());
                self.channels@[k].lemma_wf();
            }
        }
    }

    /// Registers a connected peer; a peer already registered gets the new handle.
    pub fn peer_add(&mut self, peer: &Peer)
        requires
            old(self).wf(),
        ensures
            final(self).wf(),
            final(self).peers() == upserted(old(self).peers(), (peer.id_view(), peer.sink_view())),
            final(self).chans() == old(self).chans(),
            final(self).offers() == old(self).offers(),
    {
        self.peers.insert(peer);
    }

    /// Forgets a peer that disconnected. Its subscriptions stay until a fan-out on each of
    /// its channels finds its queue closed, or until it leaves them. Returns whether the
    /// peer was registered.
    pub fn peer_remove(&mut self, id: &PeerId) -> (r: bool)
        requires
            old(self).wf(),
        ensures
            final(self).wf(),
            final(self).peers() == without(old(self).peers(), id@),
            !has_id(final(self).peers(), id@),
            r == has_id(old(self).peers(), id@),
            final(self).chans() == old(self).chans(),
            final(self).offers() == old(self).offers(),
    {
        let r = self.peers.remove(id);
        proof {
            lemma_without_absent(old(self).peers(), id@);
        }
        r
    }

    /// Whether a peer with this id is registered.
    pub fn has_peer(&self, id: &PeerId) -> (r: bool)
        ensures
            r == has_id(self.peers(), id@),
    {
        self.peers.contains(id)
    }

    /// Whether a channel with this name is live.
    pub fn has_channel(&self, id: &ChannelId) -> (r: bool)
        requires
            self.wf(),
        ensures
            r == has_key(self.chans(), id@),
    {
        self.find_channel(id).is_some()
    }

    /// How many channels are live.
    pub fn channel_count(&self) -> (r: usize)
        ensures
            r == self.chans().len(),
    {
        self.channels.len()
    }

    /// How many peers are registered.
    pub fn peer_count(&self) -> (r: usize)
        ensures
            r == self.peers().len(),
    {
        self.peers.len()
    }

    /// The channel with this name, if it is live.
    pub fn channel_get(&self, id: &ChannelId) -> (r: Option<&Channel>)
        requires
            self.wf(),
        ensures
            match r {
                Some(c) => has_key(self.chans(), id@) && c.id_view() == id@ && c.subs()
                    == subscribers_of(self.chans(), id@),
                None => !has_key(self.chans(), id@),
            },
    {
        match self.find_channel(id) {
            Some(k) => Some(&self.channels[k]),
            None => None,
        }
    }

    /// How many peers are subscribed to the channel with this name; zero where it is not
    /// live.
    pub fn subscriber_count(&self, id: &ChannelId) -> (r: usize)
        requires
            self.wf(),
        ensures
            r == subscribers_of(self.chans(), id@).len(),
    {
        match self.find_channel(id) {
            Some(k) => self.channels[k].subscriber_count(),
            None => 0,
        }
    }
}

/// What the router did with one inbound frame.
#[derive(Clone, Copy, Debug, PartialEq, Eq, Structural)]
pub enum Dispatch {
    /// A channel message, fanned out to this many subscribers.
    Forwarded(usize),
    /// A join request, served.
    Joined,
    /// A leave request, served.
    Left,
    /// Anything else: a status message, or a payload that does not decode.
    Ignored,
}

impl Router {
    proof fn lemma_replace_channel(
        old_channels: Seq<Channel>,
        new_channels: Seq<Channel>,
        k: int,
        c: Channel,
    )
        requires
            0 <= k < old_channels.len(),
            new_channels == old_channels.update(k, c),
            c.id_view() == old_channels[k].id_view(),
            c.wf(),
            forall|i: int| 0 <= i < old_channels.len() ==> #[trigger] old_channels[i].wf(),
            unique_keys(old_channels.map_values(|c: Channel| (c.id_view(), c.subs()))),
        ensures
            new_channels.map_values(|c: Channel| (c.id_view(), c.subs())) == old_channels.map_values(
                |c: Channel| (c.id_view(), c.subs()),
            ).update(k, (c.id_view(), c.subs())),
            forall|i: int| 0 <= i < new_channels.len() ==> #[trigger] new_channels[i].wf(),
            unique_keys(new_channels.map_values(|c: Channel| (c.id_view(), c.subs()))),
    {
        let om = old_channels.map_values(|c: Channel| (c.id_view(), c.subs()));
        let nm = new_channels.map_values(|c: Channel| (c.id_view(), c.subs()));
        assert(nm =~= om.update(k, (c.id_view(), c.subs())));
        assert forall|i: int, j: int| 0 <= i < j < nm.len() implies nm[i].0 != nm[j].0 by {
            assert(nm[i].0 == om[i].0);
            assert(nm[j].0 == om[j].0);
        }
    }

    proof fn lemma_drop_channel(old_channels: Seq<Channel>, new_channels: Seq<Channel>, k: int)
        requires
            0 <= k < old_channels.len(),
            new_channels == old_channels.remove(k),
            forall|i: int| 0 <= i < old_channels.len() ==> #[trigger] old_channels[i].wf(),
            unique_keys(old_channels.map_values(|c: Channel| (c.id_view(), c.subs()))),
        ensures
            new_channels.map_values(|c: Channel| (c.id_view(), c.subs())) == old_channels.map_values(
                |c: Channel| (c.id_view(), c.subs()),
            ).remove(k),
            forall|i: int| 0 <= i < new_channels.len() ==> #[trigger] new_channels[i].wf(),
            unique_keys(new_channels.map_values(|c: Channel| (c.id_view(), c.subs()))),
    {
        let om = old_channels.map_values(|c: Channel| (c.id_view(), c.subs()));
        let nm = new_channels.map_values(|c: Channel| (c.id_view(), c.subs()));
        assert(nm =~= om.remove(k));
        assert forall|i: int| 0 <= i < new_channels.len() implies #[trigger] new_channels[i].wf() by {
            if i < k {
                assert(new_channels[i] == old_channels[i]);
            } else {
                assert(new_channels[i] == old_channels[i + 1]);
            }
        }
        assert forall|i: int, j: int| 0 <= i < j < nm.len() implies nm[i].0 != nm[j].0 by {
            let oi = if i < k { i } else { i + 1 };
            let oj = if j < k { j } else { j + 1 };
            assert(nm[i] == om[oi]);
            assert(nm[j] == om[oj]);
        }
    }

    proof fn lemma_add_channel(old_channels: Seq<Channel>, c: Channel)
        requires
            c.wf(),
            forall|i: int| 0 <= i < old_channels.len() ==> #[trigger] old_channels[i].wf(),
            unique_keys(old_channels.map_values(|c: Channel| (c.id_view(), c.subs()))),
            !has_key(old_channels.map_values(|c: Channel| (c.id_view(), c.subs())), c.id_view()),
        ensures
            old_channels.push(c).map_values(|c: Channel| (c.id_view(), c.subs()))
                == old_channels.map_values(|c: Channel| (c.id_view(), c.subs())).push(
                (c.id_view(), c.subs()),
            ),
            forall|i: int|
                0 <= i < old_channels.push(c).len() ==> #[trigger] old_channels.push(c)[i].wf(),
            unique_keys(old_channels.push(c).map_values(|c: Channel| (c.id_view(), c.subs()))),
    {
        let om = old_channels.map_values(|c: Channel| (c.id_view(), c.subs()));
        let nm = old_channels.push(c).map_values(|c: Channel| (c.id_view(), c.subs()));
        assert(nm =~= om.push((c.id_view(), c.subs())));
        assert forall|i: int| 0 <= i < old_channels.push(c).len() implies #[trigger] old_channels.push(
            c,
        )[i].wf() by {
            if i < old_channels.len() {
                assert(old_channels.push(c)[i] == old_channels[i]);
            }
        }
        assert forall|i: int, j: int| 0 <= i < j < nm.len() implies nm[i].0 != nm[j].0 by {
            if j == om.len() {
                assert(nm[i] == om[i]);
            } else {
                assert(nm[i] == om[i]);
                assert(nm[j] == om[j]);
            }
        }
    }

    /// Position of channel `id` among the live channels, creating it, empty, at the end if
    /// it is not live.
    pub fn channel_get_or_add(&mut self, id: &ChannelId) -> (r: usize)
        requires
            old(self).wf(),
        ensures
            final(self).wf(),
            final(self).peers() == old(self).peers(),
            final(self).chans() == if has_key(old(self).chans(), id@) {
                old(self).chans()
            } else {
                old(self).chans().push((id@, Seq::<Entry>::empty()))
            },
            r < final(self).chans().len(),
            final(self).chans()[r as int].0 == id@,
            has_key(final(self).chans(), id@),
            key_index(final(self).chans(), id@) == r,
            final(self).offers() == old(self).offers(),
    {
        match self.find_channel(id) {
            Some(k) => k,
            None => {
                let ghost old_channels = self.channels@;
                let c = Channel::new(id.clone());
                proof {
                    Self::lemma_add_channel(old_channels, c);
                }
                self.channels.push(c);
                let k = self.channels.len() - 1;
                proof {
                    lemma_key_index(self.chans(), id@, k as int);
                }
                k
            },
        }
    }

    /// Subscribes `peer` to channel `id`, creating the channel if it is not live. A peer
    /// already subscribed gets the new handle.
    pub fn attach(&mut self, id: &ChannelId, peer: &Peer)
        requires
            old(self).wf(),
        ensures
            final(self).wf(),
            final(self).peers() == old(self).peers(),
            final(self).chans() == attached(
                old(self).chans(),
                id@,
                (peer.id_view(), peer.sink_view()),
            ),
            final(self).offers() == old(self).offers(),
    {
        let ghost e = (peer.id_view(), peer.sink_view());
        let ghost cs = self.chans();
        let k = self.channel_get_or_add(id);
        let ghost mid_channels = self.channels@;
        let ghost mid = self.chans();
        let mut c = self.channels.remove(k);
        c.subscribe(peer);
        self.channels.insert(k, c);
        proof {
            assert(self.channels@ =~= mid_channels.update(k as int, c));
            Self::lemma_replace_channel(mid_channels, self.channels@, k as int, c);
            if !has_key(cs, id@) {
                assert(!has_id(Seq::<Entry>::empty(), e.0));
                assert(Seq::<Entry>::empty().push(e) =~= seq![e]);
                assert(self.chans() =~= cs.push((id@, seq![e])));
            }
        }
    }

    /// Unsubscribes peer `peer_id` from channel `id`, and drops the channel if no subscriber
    /// is left. Returns whether the channel was dropped.
    pub fn detach(&mut self, id: &ChannelId, peer_id: &PeerId) -> (r: bool)
        requires
            old(self).wf(),
        ensures
            final(self).wf(),
            final(self).peers() == old(self).peers(),
            final(self).chans() == detached(old(self).chans(), id@, peer_id@),
            r == (has_key(old(self).chans(), id@) && without(
                subscribers_of(old(self).chans(), id@),
                peer_id@,
            ).len() == 0),
            final(self).offers() == old(self).offers(),
    {
        let ghost old_channels = self.channels@;
        match self.find_channel(id) {
            Some(k) => {
                let mut c = self.channels.remove(k);
                let empty = c.unsubscribe(peer_id);
                if empty {
                    proof {
                        Self::lemma_drop_channel(old_channels, self.channels@, k as int);
                    }
                    true
                } else {
                    self.channels.insert(k, c);
                    proof {
                        assert(self.channels@ =~= old_channels.update(k as int, c));
                        Self::lemma_replace_channel(old_channels, self.channels@, k as int, c);
                    }
                    false
                }
            },
            None => false,
        }
    }

    /// Fans `payload` out on channel `id`, creating the channel if it is not live. Every
    /// subscriber but `sender` is offered the payload's bytes once; the sender's queue gets
    /// nothing. A subscription whose queue refuses the payload is dropped. Returns how many
    /// subscribers took it.
    pub fn forward(&mut self, payload: &bytes::Bytes, id: &ChannelId, sender: &PeerId) -> (r:
        usize)
        requires
            old(self).wf(),
        ensures
            final(self).wf(),
            final(self).peers() == old(self).peers(),
            fanned_out(
                old(self).chans(),
                final(self).chans(),
                old(self).offers(),
                final(self).offers(),
                id@,
                sender@,
                bytes_content(*payload),
                r as nat,
            ),
    {
        let ghost cs = self.chans();
        let ghost log0 = self.log@;
        let k = self.channel_get_or_add(id);
        let ghost mid_channels = self.channels@;
        let mut c = self.channels.remove(k);
        let ghost c0 = c;
        let n = c.forward(payload, sender);
        let ghost c1 = c;
        self.channels.insert(k, c);
        self.log = Ghost(self.log@ + c1.offers().skip(c0.offers().len() as int));
        proof {
            assert(self.channels@ =~= mid_channels.update(k as int, c1));
            Self::lemma_replace_channel(mid_channels, self.channels@, k as int, c1);
            let before = mid_channels[k as int].subs();
            let p = bytes_content(*payload);
            assert(c0 == mid_channels[k as int]);
            let d = choose|d: Seq<bool>|
                d.len() == before.len() && c1.subs() == survivors(before, sender@, d) && n
                    == delivered_count(before, sender@, d) && c1.offers() == c0.offers()
                    + offers_made(before, sender@, p, d);
            assert(c1.offers().skip(c0.offers().len() as int) =~= offers_made(before, sender@, p, d));
            if has_key(cs, id@) {
                assert(subscribers_of(cs, id@) == before);
                assert(self.chans() =~= forwarded(cs, id@, c1.subs()));
            } else {
                assert(before == Seq::<Entry>::empty());
                assert(subscribers_of(cs, id@) == before);
                assert(self.chans() =~= forwarded(cs, id@, c1.subs()));
            }
            assert(fanout_result(
                subscribers_of(cs, id@),
                c1.subs(),
                log0,
                self.log@,
                sender@,
                p,
                n as nat,
            ) && self.chans() == forwarded(cs, id@, c1.subs()));
        }
        n
    }

    /// Acts on one inbound frame (length prefix included) from `peer`. A channel message is
    /// recognised from its header alone and the frame itself, unchanged, is fanned out on
    /// its channel to every subscriber but `peer`. A join or leave request subscribes or
    /// unsubscribes `peer`. Anything else changes nothing.
    pub fn dispatch(&mut self, peer: &Peer, frame: Vec<u8>) -> (r: Dispatch)
        requires
            old(self).wf(),
        ensures
            final(self).wf(),
            final(self).peers() == old(self).peers(),
            match parse_header_at(frame@, 4) {
                Some((_s, c)) => r matches Dispatch::Forwarded(n) && fanned_out(
                    old(self).chans(),
                    final(self).chans(),
                    old(self).offers(),
                    final(self).offers(),
                    c,
                    peer.id_view(),
                    frame@,
                    n as nat,
                ),
                None => match parse_msg_at(frame@, 4) {
                    Some(MsgModel::Join(c)) => r == Dispatch::Joined && final(self).chans()
                        == attached(old(self).chans(), c, (peer.id_view(), peer.sink_view()))
                        && final(self).offers() == old(self).offers(),
                    Some(MsgModel::Leave(c)) => r == Dispatch::Left && final(self).chans()
                        == detached(old(self).chans(), c, peer.id_view()) && final(self).offers()
                        == old(self).offers(),
                    _ => r == Dispatch::Ignored && final(self).chans() == old(self).chans()
                        && final(self).offers() == old(self).offers(),
                },
            },
    {
        match decode_header_at(frame.as_slice(), 4) {
            Some(h) => {
                let ghost bytes = frame@;
                let payload = bytes_from_vec(frame);
                let n = self.forward(&payload, h.channel(), peer.get_id());
                assert(parse_header_at(bytes, 4) == Some(h@));
                Dispatch::Forwarded(n)
            },
            None => match decode_msg_at(frame.as_slice(), 4) {
                Some(Msg::ControlMsg(ControlMsg::ChannelJoin(c))) => {
                    self.attach(&c, peer);
                    assert(parse_header_at(frame@, 4) is None);
                    assert(parse_msg_at(frame@, 4) == Some(MsgModel::Join(c@)));
                    Dispatch::Joined
                },
                Some(Msg::ControlMsg(ControlMsg::ChannelLeave(c))) => {
                    self.detach(&c, peer.get_id());
                    assert(parse_msg_at(frame@, 4) == Some(MsgModel::Leave(c@)));
                    Dispatch::Left
                },
                _ => {
                    assert(parse_header_at(frame@, 4) is None);
                    assert(!(parse_msg_at(frame@, 4) matches Some(MsgModel::Join(_))));
                    assert(!(parse_msg_at(frame@, 4) matches Some(MsgModel::Leave(_))));
                    Dispatch::Ignored
                },
            },
        }
    }
}

/// A leave that empties a channel drops it: the channel is no longer live afterwards.
pub proof fn lemma_detach_drops_empty(cs: Seq<ChannelModel>, id: Seq<char>, p: Seq<char>)
    requires
        unique_keys(cs),
        has_key(cs, id),
        without(subscribers_of(cs, id), p).len() == 0,
    ensures
        !has_key(detached(cs, id, p), id),
{
    let k = key_index(cs, id);
    let r = detached(cs, id, p);
    assert forall|i: int| 0 <= i < r.len() implies r[i].0 != id by {
        if i < k {
            assert(r[i] == cs[i]);
            assert(cs[i].0 != cs[k].0);
        } else {
            assert(r[i] == cs[i + 1]);
            assert(cs[k].0 != cs[i + 1].0);
        }
    }
}

/// A fan-out on a channel leaves that channel live with the subscriptions it produced,
/// and every other channel as it was.
pub proof fn lemma_fanout_keeps_channel(cs: Seq<ChannelModel>, id: Seq<char>, subs: Seq<Entry>)
    requires
        unique_keys(cs),
    ensures
        unique_keys(forwarded(cs, id, subs)),
        has_key(forwarded(cs, id, subs), id),
        subscribers_of(forwarded(cs, id, subs), id) == subs,
        forall|i: int|
            0 <= i < cs.len() && cs[i].0 != id ==> #[trigger] forwarded(cs, id, subs)[i] == cs[i],
{
    let after = forwarded(cs, id, subs);
    if has_key(cs, id) {
        let k = key_index(cs, id);
        assert forall|i: int, j: int| 0 <= i < j < after.len() implies after[i].0 != after[j].0 by {
            assert(after[i].0 == cs[i].0);
            assert(after[j].0 == cs[j].0);
        }
        lemma_key_index(after, id, k);
    } else {
        assert forall|i: int, j: int| 0 <= i < j < after.len() implies after[i].0 != after[j].0 by {
            if j < cs.len() {
                assert(after[i] == cs[i]);
                assert(after[j] == cs[j]);
            } else {
                assert(after[i] == cs[i]);
            }
        }
        lemma_key_index(after, id, cs.len() as int);
    }
}

proof fn lemma_without_absent(s: Seq<Entry>, id: Seq<char>)
    requires
        unique_ids(s),
    ensures
        !has_id(without(s, id), id),
{
    if has_id(s, id) {
        let k = super::peer_map::index_of(s, id);
        let r = without(s, id);
        assert forall|i: int| 0 <= i < r.len() implies r[i].0 != id by {
            if i < k {
                assert(r[i] == s[i]);
                assert(s[i].0 != s[k].0);
            } else {
                assert(r[i] == s[i + 1]);
                assert(s[k].0 != s[i + 1].0);
            }
        }
    }
}

} // verus!
