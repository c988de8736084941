use vstd::prelude::*;

use super::peer::{bytes_content, Peer, PeerId};
use super::peer_map::{
    delivered_count, fanout_result, has_id, offers_made, survivors, unique_ids, upserted, without,
    Entry, Offer, PeerMap,
};

verus! {

/// Name of a channel, chosen by clients. Two ids are equal when their texts are.
#[derive(Debug, Eq)]
pub struct ChannelId(pub String);

impl View for ChannelId {
    type V = Seq<char>;

    open spec fn view(&self) -> Seq<char> {
        self.0@
    }
}

impl Clone for ChannelId {
    fn clone(&self) -> (r: ChannelId)
        ensures
            r@ == self@,
    {
        ChannelId(self.0.clone())
    }
}

impl PartialEq for ChannelId {
    fn eq(&self, other: &ChannelId) -> (r: bool) {
        self.0 == other.0
    }
}

impl vstd::std_specs::cmp::PartialEqSpecImpl for ChannelId {
    open spec fn obeys_eq_spec() -> bool {
        true
    }

    open spec fn eq_spec(&self, other: &ChannelId) -> bool {
        self@ == other@
    }
}

} // verus!

verus! {

/// A named topic and its subscribers, at most one per peer.
pub struct Channel {
    id: ChannelId,
    subscriptions: PeerMap,
}

impl Channel {
    pub closed spec fn id_view(&self) -> Seq<char> {
        self.id@
    }

    /// The subscriptions, in the order in which they were first made.
    pub closed spec fn subs(&self) -> Seq<Entry> {
        self.subscriptions@
    }

    /// Every offer made in fan-outs on this channel, oldest first.
    pub closed spec fn offers(&self) -> Seq<Offer> {
        self.subscriptions.offers()
    }

    pub closed spec fn wf(&self) -> bool {
        self.subscriptions.wf()
    }

    pub fn new(id: ChannelId) -> (r: Channel)
        ensures
            r.id_view() == id@,
            r.subs() == Seq::<Entry>::empty(),
            r.offers() == Seq::<Offer>::empty(),
            r.wf(),
    {
        Channel { id, subscriptions: PeerMap::new() }
    }

    pub fn get_id(&self) -> (r: &ChannelId)
        ensures
            r@ == self.id_view(),
    {
        &self.id
    }

    pub fn get_name(&self) -> (r: &String)
        ensures
            r@ == self.id_view(),
    {
        &self.id.0
    }

    pub fn subscriber_count(&self) -> (r: usize)
        ensures
            r == self.subs().len(),
    {
        self.subscriptions.len()
    }

    /// Whether the peer with this id is subscribed.
    pub fn is_subscribed(&self, id: &PeerId) -> (r: bool)
        ensures
            r == has_id(self.subs(), id@),
    {
        self.subscriptions.contains(id)
    }

    /// Subscribes `peer`; a peer already subscribed keeps its place and gets the new handle.
    pub fn subscribe(&mut self, peer: &Peer)
        requires
            old(self).wf(),
        ensures
            final(self).wf(),
            final(self).id_view() == old(self).id_view(),
            final(self).subs() == upserted(old(self).subs(), (peer.id_view(), peer.sink_view())),
            final(self).offers() == old(self).offers(),
    {
        self.subscriptions.insert(peer);
    }

    /// Removes the subscription of `id`, if any. Returns whether no subscriber is left.
    pub fn unsubscribe(&mut self, id: &PeerId) -> (r: bool)
        requires
            old(self).wf(),
        ensures
            final(self).wf(),
            final(self).id_view() == old(self).id_view(),
            final(self).subs() == without(old(self).subs(), id@),
            final(self).offers() == old(self).offers(),
            r == (final(self).subs().len() == 0),
    {
        self.subscriptions.remove(id);
        self.subscriptions.len() == 0
    }

    /// Fans `payload` out to every subscriber but `sender`: each is offered it once, and a
    /// subscription whose queue refuses it is dropped. The sender is offered nothing. Each
    /// offer is logged. Returns how many subscribers took it.
    pub fn forward(&mut self, payload: &bytes::Bytes, sender: &PeerId) -> (r: usize)
        requires
            old(self).wf(),
        ensures
            final(self).wf(),
            final(self).id_view() == old(self).id_view(),
            fanout_result(
                old(self).subs(),
                final(self).subs(),
                old(self).offers(),
                final(self).offers(),
                sender@,
                bytes_content(*payload),
                r as nat,
            ),
    {
        let delivered = self.subscriptions.offer(payload, sender);
        let r = self.subscriptions.reap(sender, &delivered);
        assert(delivered@.len() == old(self).subs().len() && self.subs() == survivors(
            old(self).subs(),
            sender@,
            delivered@,
        ) && r == delivered_count(old(self).subs(), sender@, delivered@) && self.offers()
            == old(self).offers() + offers_made(
            old(self).subs(),
            sender@,
            bytes_content(*payload),
            delivered@,
        ));
        r
    }

    /// The subscriptions of a well-formed channel have distinct ids.
    pub proof fn lemma_wf(&self)
        requires
            self.wf(),
        ensures
            unique_ids(self.subs()),
    {
    }
}

} // verus!
