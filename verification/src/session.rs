use vstd::prelude::*;
use vstd::string::*;

verus! {

/// One participant's connection-negotiation payload. The store treats the
/// contents as opaque: it never inspects `offer_type` or `sdp`.
pub struct Offer {
    offer_type: String,
    sdp: String,
}

/// One participant of a session: an identity plus its offer. A peer is
/// immutable once created and is identified by `peer_id`, which must be
/// non-empty.
pub struct Peer {
    peer_id: String,
    offer: Offer,
}

/// A session is a named, ordered collection of peer records; the order
/// reflects join order.
pub type Session = Vec<Peer>;

/// Mathematical model of an `Offer`.
pub struct OfferView {
    pub offer_type: Seq<char>,
    pub sdp: Seq<char>,
}

/// Mathematical model of a `Peer`.
pub struct PeerView {
    pub peer_id: Seq<char>,
    pub offer: OfferView,
}

impl View for Offer {
    type V = OfferView;

    closed spec fn view(&self) -> OfferView {
        OfferView { offer_type: self.offer_type@, sdp: self.sdp@ }
    }
}

impl DeepView for Offer {
    type V = OfferView;

    open spec fn deep_view(&self) -> OfferView {
        self@
    }
}

impl View for Peer {
    type V = PeerView;

    closed spec fn view(&self) -> PeerView {
        PeerView { peer_id: self.peer_id@, offer: self.offer@ }
    }
}

impl DeepView for Peer {
    type V = PeerView;

    open spec fn deep_view(&self) -> PeerView {
        self@
    }
}

impl Offer {
    pub fn new(offer_type: String, sdp: String) -> (r: Offer)
        ensures
            r@.offer_type == offer_type@,
            r@.sdp == sdp@,
    {
        Offer { offer_type, sdp }
    }

    pub fn offer_type(&self) -> (r: &String)
        ensures
            r@ == self@.offer_type,
    {
        &self.offer_type
    }

    pub fn sdp(&self) -> (r: &String)
        ensures
            r@ == self@.sdp,
    {
        &self.sdp
    }
}

impl Clone for Offer {
    fn clone(&self) -> (r: Self)
        ensures
            r@ == self@,
    {
        Offer { offer_type: self.offer_type.clone(), sdp: self.sdp.clone() }
    }
}

impl Peer {
    pub fn new(peer_id: String, offer: Offer) -> (r: Peer)
        ensures
            r@.peer_id == peer_id@,
            r@.offer == offer@,
    {
        Peer { peer_id, offer }
    }

    pub fn peer_id(&self) -> (r: &String)
        ensures
            r@ == self@.peer_id,
    {
        &self.peer_id
    }

    pub fn offer(&self) -> (r: &Offer)
        ensures
            r@ == self@.offer,
    {
        &self.offer
    }
}

impl Clone for Peer {
    fn clone(&self) -> (r: Self)
        ensures
            r@ == self@,
    {
        Peer { peer_id: self.peer_id.clone(), offer: self.offer.clone() }
    }
}

/// The closed set of failures a store operation can report.
#[derive(Clone, Copy, Debug, PartialEq, Eq, Structural)]
pub enum SessionError {
    /// The session id is unknown to the store (reads only).
    NotFound,
    /// A stored value is not a well-formed session encoding. Such a value is
    /// reported, never silently dropped or repaired.
    DecodeError,
    /// A contended join exhausted its retry budget. Raised only by backends
    /// shared with other writers; the in-memory store never reports it.
    ConcurrentModification,
    /// The backing store could not be reached. Raised only by backends that
    /// perform I/O; the in-memory store never reports it.
    StoreUnavailable,
    /// The peer record is unusable: its `peer_id` is empty, or a peer with
    /// the same `peer_id` already sits in the session.
    InvalidInput,
}

/// Whether some peer in `s` carries the id `id`.
pub open spec fn has_peer(s: Seq<PeerView>, id: Seq<char>) -> bool {
    exists|i: int| 0 <= i < s.len() && s[i].peer_id == id
}

/// Whether the peers of `s` carry pairwise-distinct ids.
pub open spec fn peer_ids_distinct(s: Seq<PeerView>) -> bool {
    forall|i: int, j: int| 0 <= i < j < s.len() ==> s[i].peer_id != s[j].peer_id
}

/// How many peers of `s` carry the id `id`.
pub open spec fn count_peer(s: Seq<PeerView>, id: Seq<char>) -> nat
    decreases s.len(),
{
    if s.len() == 0 {
        0
    } else {
        (if s[0].peer_id == id {
            1nat
        } else {
            0nat
        }) + count_peer(s.drop_first(), id)
    }
}

/// Compares two string slices character by character.
pub fn str_eq(a: &str, b: &str) -> (r: bool)
    ensures
        r == (a@ == b@),
{
    let na = a.unicode_len();
    let nb = b.unicode_len();
    if na != nb {
        return false;
    }
    let mut i: usize = 0;
    while i < na
        invariant
            0 <= i <= na,
            na == a@.len(),
            na == b@.len(),
            forall|k: int| 0 <= k < i ==> a@[k] == b@[k],
        decreases na - i,
    {
        if a.get_char(i) != b.get_char(i) {
            return false;
        }
        i += 1;
    }
    proof {
        assert(a@ =~= b@);
    }
    true
}

} // verus!
