//! A table from peer ids to egress queues, at most one entry per id.
use vstd::prelude::*;

use super::peer::{
    bytes_content, share_bytes, share_handle, try_deliver, Peer, PeerHandle, PeerId,
};

verus! {

/// Abstract value of one registered peer: its id and its egress queue.
pub type Entry = (Seq<char>, PeerHandle);

/// No two entries share an id.
pub open spec fn unique_ids(s: Seq<Entry>) -> bool {
    forall|i: int, j: int| 0 <= i < j < s.len() ==> s[i].0 != s[j].0
}

/// Some entry has this id.
pub open spec fn has_id(s: Seq<Entry>, id: Seq<char>) -> bool {
    exists|i: int| 0 <= i < s.len() && s[i].0 == id
}

/// Position of the entry with this id, where there is one.
pub open spec fn index_of(s: Seq<Entry>, id: Seq<char>) -> int {
    choose|i: int| 0 <= i < s.len() && s[i].0 == id
}

/// `s` after subscribing `e`: an entry with the same id gets the new handle, else `e` is
/// added at the end.
pub open spec fn upserted(s: Seq<Entry>, e: Entry) -> Seq<Entry> {
    if has_id(s, e.0) {
        s.map_values(|x: Entry| if x.0 == e.0 { e } else { x })
    } else {
        s.push(e)
    }
}

/// `s` without the entry that has this id.
pub open spec fn without(s: Seq<Entry>, id: Seq<char>) -> Seq<Entry> {
    if has_id(s, id) {
        s.remove(index_of(s, id))
    } else {
        s
    }
}

/// The entries that stay after a fan-out from `sender` in which `delivered[i]` tells
/// whether the payload was queued for entry `i`: the sender's own entry, which is never
/// offered the payload, and every entry that took it. Order is kept.
pub open spec fn survivors(s: Seq<Entry>, sender: Seq<char>, delivered: Seq<bool>) -> Seq<Entry>
    decreases s.len(),
{
    if s.len() == 0 {
        Seq::empty()
    } else {
        let prev = survivors(s.drop_last(), sender, delivered.drop_last());
        if s.last().0 == sender || delivered.last() {
            prev.push(s.last())
        } else {
            prev
        }
    }
}

/// How many entries other than the sender's took the payload.
pub open spec fn delivered_count(s: Seq<Entry>, sender: Seq<char>, delivered: Seq<bool>) -> nat
    decreases s.len(),
{
    if s.len() == 0 {
        0
    } else {
        delivered_count(s.drop_last(), sender, delivered.drop_last()) + if s.last().0 != sender
            && delivered.last() {
            1nat
        } else {
            0nat
        }
    }
}

/// One payload offered to one peer's queue during a fan-out, and whether the queue took it.
pub struct Offer {
    pub peer: Seq<char>,
    pub payload: Seq<u8>,
    pub taken: bool,
}

/// The offers that a fan-out of `payload` from `sender` makes to the entries `s`, in
/// order, where `delivered[i]` is the outcome for entry `i`: one offer to each entry but
/// the sender's, and none to the sender's.
pub open spec fn offers_made(
    s: Seq<Entry>,
    sender: Seq<char>,
    payload: Seq<u8>,
    delivered: Seq<bool>,
) -> Seq<Offer>
    decreases s.len(),
{
    if s.len() == 0 {
        Seq::empty()
    } else {
        let prev = offers_made(s.drop_last(), sender, payload, delivered.drop_last());
        if s.last().0 != sender {
            prev.push(Offer { peer: s.last().0, payload, taken: delivered.last() })
        } else {
            prev
        }
    }
}

/// What a whole fan-out of `payload` from `sender` can do, for some outcome of the offers:
/// the entries `before` become `after`, which drops those that refused the payload; the
/// log of offers grows from `log_before` to `log_after` by the offers made; and `n`
/// counts the peers other than the sender that took the payload.
pub open spec fn fanout_result(
    before: Seq<Entry>,
    after: Seq<Entry>,
    log_before: Seq<Offer>,
    log_after: Seq<Offer>,
    sender: Seq<char>,
    payload: Seq<u8>,
    n: nat,
) -> bool {
    exists|delivered: Seq<bool>|
        delivered.len() == before.len() && after == survivors(before, sender, delivered) && n
            == delivered_count(before, sender, delivered) && log_after == log_before
            + offers_made(before, sender, payload, delivered)
}

/// A fan-out reaches every subscriber but the sender, or drops it. No offer goes to the
/// sender, and every offer carries the payload. Each other entry is offered the payload
/// exactly once, with its own outcome, and stays exactly when it took it. The sender's
/// entry stays. No entry is added and none appears twice.
pub proof fn lemma_fanout_reaches_or_reaps(
    s: Seq<Entry>,
    sender: Seq<char>,
    payload: Seq<u8>,
    delivered: Seq<bool>,
)
    requires
        unique_ids(s),
        delivered.len() == s.len(),
    ensures
        forall|j: int|
            0 <= j < offers_made(s, sender, payload, delivered).len() ==> (#[trigger] offers_made(
                s,
                sender,
                payload,
                delivered,
            )[j]).peer != sender && offers_made(s, sender, payload, delivered)[j].payload
                == payload,
        forall|j: int, k: int|
            0 <= j < k < offers_made(s, sender, payload, delivered).len() ==> (#[trigger] offers_made(
                s,
                sender,
                payload,
                delivered,
            )[j]).peer != (#[trigger] offers_made(s, sender, payload, delivered)[k]).peer,
        forall|i: int|
            0 <= i < s.len() && (#[trigger] s[i]).0 != sender ==> offers_made(
                s,
                sender,
                payload,
                delivered,
            ).contains(Offer { peer: s[i].0, payload, taken: delivered[i] }),
        forall|i: int|
            0 <= i < s.len() && (#[trigger] s[i]).0 == sender ==> survivors(
                s,
                sender,
                delivered,
            ).contains(s[i]),
        forall|i: int|
            0 <= i < s.len() && (#[trigger] s[i]).0 != sender ==> (survivors(
                s,
                sender,
                delivered,
            ).contains(s[i]) <==> delivered[i]),
        forall|x: Entry| #[trigger] survivors(s, sender, delivered).contains(x) ==> s.contains(x),
        unique_ids(survivors(s, sender, delivered)),
        delivered_count(s, sender, delivered) <= s.len(),
{
    lemma_offers_made(s, sender, payload, delivered);
    lemma_survivors(s, sender, delivered);
}

/// Every offer of a fan-out names a peer of `s` other than the sender and carries the
/// payload with that peer's outcome; each such peer gets one, and no peer two.
proof fn lemma_offers_made(s: Seq<Entry>, sender: Seq<char>, payload: Seq<u8>, delivered: Seq<bool>)
    requires
        unique_ids(s),
        delivered.len() == s.len(),
    ensures
        forall|j: int|
            0 <= j < offers_made(s, sender, payload, delivered).len() ==> (#[trigger] offers_made(
                s,
                sender,
                payload,
                delivered,
            )[j]).peer != sender && offers_made(s, sender, payload, delivered)[j].payload
                == payload && exists|i: int|
                0 <= i < s.len() && s[i].0 == offers_made(s, sender, payload, delivered)[j].peer,
        forall|j: int, k: int|
            0 <= j < k < offers_made(s, sender, payload, delivered).len() ==> (#[trigger] offers_made(
                s,
                sender,
                payload,
                delivered,
            )[j]).peer != (#[trigger] offers_made(s, sender, payload, delivered)[k]).peer,
        forall|i: int|
            0 <= i < s.len() && (#[trigger] s[i]).0 != sender ==> offers_made(
                s,
                sender,
                payload,
                delivered,
            ).contains(Offer { peer: s[i].0, payload, taken: delivered[i] }),
    decreases s.len(),
{
    if s.len() > 0 {
        let s0 = s.drop_last();
        let d0 = delivered.drop_last();
        let n = s.len() - 1;
        assert forall|i: int, j: int| 0 <= i < j < s0.len() implies s0[i].0 != s0[j].0 by {
            assert(s0[i] == s[i] && s0[j] == s[j]);
        }
        lemma_offers_made(s0, sender, payload, d0);
        let prev = offers_made(s0, sender, payload, d0);
        let cur = offers_made(s, sender, payload, delivered);
        assert forall|j: int| 0 <= j < prev.len() implies #[trigger] prev[j].peer != s[n].0 by {
            let i = choose|i: int| 0 <= i < s0.len() && s0[i].0 == prev[j].peer;
            assert(s[i] == s0[i]);
            assert(s[i].0 != s[n].0);
        }
        assert forall|j: int|
            0 <= j < cur.len() implies (#[trigger] cur[j]).peer != sender && cur[j].payload
                == payload && exists|i: int| 0 <= i < s.len() && s[i].0 == cur[j].peer by {
            if j < prev.len() {
                assert(cur[j] == prev[j]);
                let i = choose|i: int| 0 <= i < s0.len() && s0[i].0 == prev[j].peer;
                assert(s[i] == s0[i]);
            } else {
                assert(s[n].0 == cur[j].peer);
            }
        }
        assert forall|j: int, k: int| 0 <= j < k < cur.len() implies (#[trigger] cur[j]).peer != (
        #[trigger] cur[k]).peer by {
            if k < prev.len() {
                assert(cur[j] == prev[j] && cur[k] == prev[k]);
            } else {
                assert(cur[j] == prev[j]);
            }
        }
        assert forall|i: int| 0 <= i < s.len() && (#[trigger] s[i]).0 != sender implies cur.contains(
            Offer { peer: s[i].0, payload, taken: delivered[i] },
        ) by {
            if i < n {
                assert(s0[i] == s[i] && d0[i] == delivered[i]);
                let o = Offer { peer: s[i].0, payload, taken: delivered[i] };
                assert(prev.contains(o));
                let j = choose|j: int| 0 <= j < prev.len() && prev[j] == o;
                assert(cur[j] == o);
            } else {
                assert(cur[prev.len() as int] == Offer { peer: s[i].0, payload, taken: delivered[i] });
            }
        }
    }
}

/// Source order is kept: the offers of an earlier fan-out stand in the log before those of
/// a later one, so a peer offered `first` and then `second` sees them in that order.
pub proof fn lemma_source_order(log: Seq<Offer>, first: Seq<Offer>, second: Seq<Offer>, j: int, k: int)
    requires
        0 <= j < first.len(),
        0 <= k < second.len(),
    ensures
        (log + first + second)[log.len() + j] == first[j],
        (log + first + second)[log.len() + first.len() + k] == second[k],
        log.len() + j < log.len() + first.len() + k,
{
}

/// A fan-out in which every entry took the payload, or is the sender's, keeps them all.
proof fn lemma_survivors_all(s: Seq<Entry>, sender: Seq<char>, delivered: Seq<bool>)
    requires
        delivered.len() == s.len(),
        forall|i: int| 0 <= i < s.len() ==> s[i].0 == sender || delivered[i],
    ensures
        survivors(s, sender, delivered) == s,
    decreases s.len(),
{
    if s.len() > 0 {
        let s0 = s.drop_last();
        let d0 = delivered.drop_last();
        assert forall|i: int| 0 <= i < s0.len() implies s0[i].0 == sender || d0[i] by {
            assert(s0[i] == s[i] && d0[i] == delivered[i]);
        }
        lemma_survivors_all(s0, sender, d0);
        assert(s0.push(s.last()) =~= s);
    }
}

/// Fan-out keeps exactly the sender's entry and the entries that took the payload, and no
/// entry twice.
pub proof fn lemma_survivors(s: Seq<Entry>, sender: Seq<char>, delivered: Seq<bool>)
    requires
        unique_ids(s),
        delivered.len() == s.len(),
    ensures
        unique_ids(survivors(s, sender, delivered)),
        forall|x: Entry| #[trigger]
            survivors(s, sender, delivered).contains(x) ==> s.contains(x),
        forall|i: int|
            0 <= i < s.len() ==> (#[trigger] survivors(s, sender, delivered).contains(s[i]) <==> (
            s[i].0 == sender || delivered[i])),
        delivered_count(s, sender, delivered) <= s.len(),
    decreases s.len(),
{
    if s.len() > 0 {
        let s0 = s.drop_last();
        let d0 = delivered.drop_last();
        lemma_survivors(s0, sender, d0);
        let prev = survivors(s0, sender, d0);
        let cur = survivors(s, sender, delivered);
        let n = s.len() - 1;
        assert forall|k: int| 0 <= k < prev.len() implies prev[k].0 != s[n] .0 by {
            assert(prev.contains(prev[k]));
            let j = choose|j: int| 0 <= j < s0.len() && s0[j] == prev[k];
            assert(s[j] == prev[k]);
        }
        assert forall|x: Entry| #[trigger] cur.contains(x) implies s.contains(x) by {
            if prev.contains(x) {
                let j = choose|j: int| 0 <= j < s0.len() && s0[j] == x;
                assert(s[j] == x);
            } else {
                assert(s[n] == x);
            }
        }
        assert forall|i: int| 0 <= i < s.len() implies (#[trigger] cur.contains(s[i]) <==> (s[i].0
            == sender || delivered[i])) by {
            if i < n {
                assert(s0[i] == s[i]);
                assert(d0[i] == delivered[i]);
                assert(s[i].0 != s[n].0);
                if cur.contains(s[i]) && !prev.contains(s[i]) {
                    let k = choose|k: int| 0 <= k < cur.len() && cur[k] == s[i];
                    assert(k == prev.len());
                }
                if prev.contains(s[i]) {
                    let k = choose|k: int| 0 <= k < prev.len() && prev[k] == s[i];
                    assert(cur[k] == s[i]);
                }
            } else {
                if s[n].0 == sender || delivered[n] {
                    assert(cur[prev.len() as int] == s[n]);
                } else if cur.contains(s[n]) {
                    let k = choose|k: int| 0 <= k < prev.len() && prev[k] == s[n];
                    assert(prev[k].0 != s[n].0);
                }
            }
        }
    }
}

} // verus!

verus! {

/// One entry of a [`PeerMap`].
pub struct PeerEntry {
    id: PeerId,
    handle: PeerHandle,
}

impl View for PeerEntry {
    type V = Entry;

    closed spec fn view(&self) -> Entry {
        (self.id@, self.handle)
    }
}

impl PeerEntry {
    fn duplicate(&self) -> (r: PeerEntry)
        ensures
            r@ == self@,
    {
        PeerEntry { id: self.id.clone(), handle: share_handle(&self.handle) }
    }
}

/// Peers and their egress queues, in the order in which they were first inserted.
pub struct PeerMap {
    entries: Vec<PeerEntry>,
    log: Ghost<Seq<Offer>>,
}

impl View for PeerMap {
    type V = Seq<Entry>;

    closed spec fn view(&self) -> Seq<Entry> {
        self.entries@.map_values(|s: PeerEntry| s@)
    }
}

impl PeerMap {
    pub open spec fn wf(&self) -> bool {
        unique_ids(self@)
    }

    /// Every offer made through this map, oldest first.
    pub closed spec fn offers(&self) -> Seq<Offer> {
        self.log@
    }

    pub fn new() -> (r: PeerMap)
        ensures
            r@ == Seq::<Entry>::empty(),
            r.offers() == Seq::<Offer>::empty(),
            r.wf(),
    {
        let r = PeerMap { entries: Vec::new(), log: Ghost(Seq::empty()) };
        assert(r@ =~= Seq::<Entry>::empty());
        r
    }

    pub fn len(&self) -> (r: usize)
        ensures
            r == self@.len(),
    {
        self.entries.len()
    }

    fn find(&self, id: &PeerId) -> (r: Option<usize>)
        ensures
            match r {
                Some(k) => k < self@.len() && self@[k as int].0 == id@,
                None => !has_id(self@, id@),
            },
    {
        let mut k: usize = 0;
        while k < self.entries.len()
            invariant
                k <= self@.len(),
                self@.len() == self.entries@.len(),
                forall|j: int| 0 <= j < k ==> self@[j].0 != id@,
            decreases self.entries@.len() - k,
        {
            if self.entries[k].id == *id {
                return Some(k);
            }
            k = k + 1;
        }
        None
    }

    pub fn contains(&self, id: &PeerId) -> (r: bool)
        ensures
            r == has_id(self@, id@),
    {
        self.find(id).is_some()
    }

    /// Inserts the peer's id and handle; an id already present keeps its place and gets the
    /// new handle.
    pub fn insert(&mut self, peer: &Peer)
        requires
            old(self).wf(),
        ensures
            final(self).wf(),
            final(self)@ == upserted(old(self)@, (peer.id_view(), peer.sink_view())),
            final(self).offers() == old(self).offers(),
    {
        let e = PeerEntry { id: peer.get_id().clone(), handle: share_handle(peer.get_sink()) };
        let ghost s = self@;
        match self.find(peer.get_id()) {
            Some(k) => {
                self.entries.set(k, e);
                assert forall|j: int| 0 <= j < s.len() && j != k implies s[j].0 != peer.id_view() by {
                    if j < k {
                        assert(s[j].0 != s[k as int].0);
                    } else {
                        assert(s[k as int].0 != s[j].0);
                    }
                }
                assert(self@ =~= upserted(s, (peer.id_view(), peer.sink_view())));
            },
            None => {
                self.entries.push(e);
                assert(self@ =~= s.push((peer.id_view(), peer.sink_view())));
            },
        }
    }

    /// Removes the entry of `id`. Returns whether there was one.
    pub fn remove(&mut self, id: &PeerId) -> (r: bool)
        requires
            old(self).wf(),
        ensures
            final(self).wf(),
            final(self)@ == without(old(self)@, id@),
            final(self).offers() == old(self).offers(),
            r == has_id(old(self)@, id@),
    {
        let ghost s = self@;
        match self.find(id) {
            Some(k) => {
                let _ = self.entries.remove(k);
                assert(index_of(s, id@) == k as int) by {
                    let c = index_of(s, id@);
                    if c < k {
                        assert(s[c].0 != s[k as int].0);
                    }
                    if c > k {
                        assert(s[k as int].0 != s[c].0);
                    }
                }
                assert(self@ =~= s.remove(k as int));
                true
            },
            None => false,
        }
    }
    /// Offers `payload` to every peer but `sender`, in order, once each, and logs each
    /// offer. Entry `i` of the result tells whether entry `i` took it; the sender's entry,
    /// which is not offered the payload, reads `true`.
    pub fn offer(&mut self, payload: &bytes::Bytes, sender: &PeerId) -> (r: Vec<bool>)
        ensures
            final(self)@ == old(self)@,
            r@.len() == old(self)@.len(),
            final(self).offers() == old(self).offers() + offers_made(
                old(self)@,
                sender@,
                bytes_content(*payload),
                r@,
            ),
    {
        let ghost s = self@;
        let ghost start = self.log@;
        let ghost p = bytes_content(*payload);
        let mut out: Vec<bool> = Vec::new();
        let mut k: usize = 0;
        while k < self.entries.len()
            invariant
                k <= s.len(),
                s == self@,
                s.len() == self.entries@.len(),
                out@.len() == k,
                self.log@ == start + offers_made(
                    s.subrange(0, k as int),
                    sender@,
                    p,
                    out@,
                ),
                p == bytes_content(*payload),
            decreases s.len() - k,
        {
            proof {
                assert(s.subrange(0, k + 1).drop_last() =~= s.subrange(0, k as int));
            }
            let sub = &self.entries[k];
            let ghost before = out@;
            if sub.id == *sender {
                out.push(true);
                proof {
                    assert(out@.drop_last() =~= before);
                }
            } else {
                let ok = try_deliver(&sub.handle, share_bytes(payload));
                out.push(ok);
                proof {
                    assert(out@.drop_last() =~= before);
                }
                self.log = Ghost(self.log@.push(Offer { peer: s[k as int].0, payload: p, taken: ok }));
                assert(self.log@ =~= start + offers_made(
                    s.subrange(0, k + 1),
                    sender@,
                    p,
                    out@,
                ));
            }
            k = k + 1;
        }
        assert(s.subrange(0, s.len() as int) =~= s);
        out
    }

    /// Drops the entries that did not take a fan-out from `sender`, where
    /// `delivered[i]` tells whether entry `i` took it. Returns how many peers
    /// other than the sender took it. Nothing is moved when every entry took it.
    pub fn reap(&mut self, sender: &PeerId, delivered: &Vec<bool>) -> (r: usize)
        requires
            old(self).wf(),
            delivered@.len() == old(self)@.len(),
        ensures
            final(self).wf(),
            final(self)@ == survivors(old(self)@, sender@, delivered@),
            final(self).offers() == old(self).offers(),
            r == delivered_count(old(self)@, sender@, delivered@),
    {
        let ghost s = self@;
        let ghost d = delivered@;
        let mut count: usize = 0;
        let mut all_kept = true;
        let mut k: usize = 0;
        while k < self.entries.len()
            invariant
                k <= s.len(),
                s == self@,
                s.len() == self.entries@.len(),
                d.len() == s.len(),
                d == delivered@,
                count == delivered_count(s.subrange(0, k as int), sender@, d.subrange(0, k as int)),
                count <= k,
                all_kept == forall|i: int| 0 <= i < k ==> s[i].0 == sender@ || d[i],
            decreases s.len() - k,
        {
            proof {
                assert(s.subrange(0, k + 1).drop_last() =~= s.subrange(0, k as int));
                assert(d.subrange(0, k + 1).drop_last() =~= d.subrange(0, k as int));
            }
            let own = self.entries[k].id == *sender;
            if !own {
                if delivered[k] {
                    count = count + 1;
                } else {
                    all_kept = false;
                }
            }
            k = k + 1;
        }
        assert(s.subrange(0, s.len() as int) =~= s);
        assert(d.subrange(0, d.len() as int) =~= d);
        proof {
            lemma_survivors(s, sender@, d);
        }
        if all_kept {
            proof {
                lemma_survivors_all(s, sender@, d);
            }
            return count;
        }
        let mut kept: Vec<PeerEntry> = Vec::new();
        let mut k: usize = 0;
        while k < self.entries.len()
            invariant
                k <= s.len(),
                s == self@,
                s.len() == self.entries@.len(),
                d.len() == s.len(),
                d == delivered@,
                kept@.map_values(|x: PeerEntry| x@) == survivors(
                    s.subrange(0, k as int),
                    sender@,
                    d.subrange(0, k as int),
                ),
            decreases s.len() - k,
        {
            proof {
                assert(s.subrange(0, k + 1).drop_last() =~= s.subrange(0, k as int));
                assert(d.subrange(0, k + 1).drop_last() =~= d.subrange(0, k as int));
            }
            let sub = &self.entries[k];
            if sub.id == *sender || delivered[k] {
                let ghost before = kept@;
                kept.push(sub.duplicate());
                assert(kept@.map_values(|x: PeerEntry| x@) =~= before.map_values(
                    |x: PeerEntry| x@,
                ).push(s[k as int]));
            }
            k = k + 1;
        }
        self.entries = kept;
        count
    }
}

} // verus!
