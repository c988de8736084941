use vstd::prelude::*;

verus! {

/// The `bytes` crate's cheaply clonable, read-only shared buffer; carried through opaque.
#[verifier::external_type_specification]
#[verifier::external_body]
pub struct ExBytes(bytes::Bytes);

/// The producer end of a `flume` queue; carried through opaque.
#[verifier::external_type_specification]
#[verifier::external_body]
#[verifier::reject_recursive_types(T)]
pub struct ExSender<T>(flume::Sender<T>);

/// Producer end of a peer's egress queue; each item is one framed blob.
pub type PeerHandle = flume::Sender<bytes::Bytes>;

/// The bytes that a shared buffer holds.
pub uninterp spec fn bytes_content(b: bytes::Bytes) -> Seq<u8>;

/// Relies on `From<Vec<u8>> for bytes::Bytes`: the buffer takes over the vector's bytes.
#[verifier::external_body]
pub(crate) fn bytes_from_vec(v: Vec<u8>) -> (r: bytes::Bytes)
    ensures
        bytes_content(r) == v@,
{
    bytes::Bytes::from(v)
}

/// Relies on `Clone for bytes::Bytes`: a second reference to the same bytes, no copy.
#[verifier::external_body]
pub(crate) fn share_bytes(b: &bytes::Bytes) -> (r: bytes::Bytes)
    ensures
        bytes_content(r) == bytes_content(*b),
{
    b.clone()
}

/// Relies on `Clone for flume::Sender`: the clone holds the same shared queue (one `Arc`
/// pointer), so it is the same handle.
#[verifier::external_body]
pub(crate) fn share_handle(h: &PeerHandle) -> (r: PeerHandle)
    ensures
        r == *h,
{
    h.clone()
}

/// Relies on `flume::Sender::try_send`, which never blocks: `true` when the item was
/// queued, `false` when the queue is full or its receiver is gone. Which of these happens
/// depends on the receiver, so nothing more is stated.
#[verifier::external_body]
pub(crate) fn try_deliver(h: &PeerHandle, payload: bytes::Bytes) -> (r: bool) {
    h.try_send(payload).is_ok()
}

/// Identity of one connected client. Two ids are equal when their texts are.
#[derive(Debug, Eq)]
pub struct PeerId {
    id: String,
}

impl View for PeerId {
    type V = Seq<char>;

    closed spec fn view(&self) -> Seq<char> {
        self.id@
    }
}

impl PeerId {
    pub fn new(id: &str) -> (r: PeerId)
        ensures
            r@ == id@,
    {
        PeerId { id: id.to_string() }
    }

    pub fn from_string(id: String) -> (r: PeerId)
        ensures
            r@ == id@,
    {
        PeerId { id }
    }

    pub fn as_str(&self) -> (r: &str)
        ensures
            r@ == self@,
    {
        self.id.as_str()
    }
}

impl Clone for PeerId {
    fn clone(&self) -> (r: PeerId)
        ensures
            r@ == self@,
    {
        PeerId { id: self.id.clone() }
    }
}

impl PartialEq for PeerId {
    fn eq(&self, other: &PeerId) -> (r: bool) {
        self.id == other.id
    }
}

impl vstd::std_specs::cmp::PartialEqSpecImpl for PeerId {
    open spec fn obeys_eq_spec() -> bool {
        true
    }

    open spec fn eq_spec(&self, other: &PeerId) -> bool {
        self@ == other@
    }
}


} // verus!

verus! {

/// A connected client as the router sees it: its identity and its egress queue.
pub struct Peer {
    id: PeerId,
    sink: PeerHandle,
}

impl Peer {
    pub fn new(id: PeerId, sink: PeerHandle) -> (r: Peer)
        ensures
            r.id_view() == id@,
            r.sink_view() == sink,
    {
        Peer { id, sink }
    }

    pub closed spec fn id_view(&self) -> Seq<char> {
        self.id@
    }

    pub closed spec fn sink_view(&self) -> PeerHandle {
        self.sink
    }

    pub fn get_id(&self) -> (r: &PeerId)
        ensures
            r@ == self.id_view(),
    {
        &self.id
    }

    pub fn get_sink(&self) -> (r: &PeerHandle)
        ensures
            *r == self.sink_view(),
    {
        &self.sink
    }
}

} // verus!
