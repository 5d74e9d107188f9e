//! The peer registry that discovery fills, and the routing of outbound
//! messages through it.
use crate::frame::{frame_message, frame_of, MAX_PAYLOAD};
use crate::ids::fresh_id;
use crate::message::{encoding, CodecError, Message};
use vstd::prelude::*;

verus! {

/// The service type under which nodes advertise and browse.
pub const SERVICE_TYPE: &'static str = "_nexustransfer._tcp.local.";

/// A remote node: its id, its advertised name and its `host:port` address.
#[derive(Debug)]
pub struct Peer {
    pub id: u128,
    pub name: String,
    pub addr: String,
}

pub struct PeerView {
    pub id: u128,
    pub name: Seq<char>,
    pub addr: Seq<char>,
}

impl View for Peer {
    type V = PeerView;

    open spec fn view(&self) -> PeerView {
        PeerView { id: self.id, name: self.name@, addr: self.addr@ }
    }
}

/// What the discovery service reported.
pub enum DiscoveryEvent {
    /// A node was resolved; `addr` is its first address as `host:port`, if it
    /// has one.
    Resolved { name: String, addr: Option<String> },
    /// The node advertised under `name` went away.
    Removed { name: String },
    /// Anything else (a search started or stopped, a type found).
    Other,
}

/// Why an outbound message could not be prepared.
#[derive(Debug, Clone, Copy, PartialEq, Eq, Structural)]
pub enum NetworkError {
    /// No peer with that id is known.
    PeerNotFound,
    /// The message does not fit in a frame.
    Codec(CodecError),
}

/// Where to connect and what to write for one outbound message.
pub struct Outbound {
    pub addr: String,
    pub frame: Vec<u8>,
}

pub open spec fn views(s: Seq<Peer>) -> Seq<PeerView> {
    s.map_values(|p: Peer| p@)
}

pub open spec fn has_id(s: Seq<PeerView>, id: u128) -> bool {
    exists|i: int| 0 <= i < s.len() && s[i].id == id
}

pub open spec fn index_of(s: Seq<PeerView>, id: u128) -> int {
    choose|i: int| 0 <= i < s.len() && s[i].id == id
}

pub open spec fn unique_ids(s: Seq<PeerView>) -> bool {
    forall|i: int, j: int| 0 <= i < j < s.len() ==> s[i].id != s[j].id
}

/// `s` with `p` stored under its id: the entry with that id is replaced, or
/// `p` is added at the end.
pub open spec fn upsert(s: Seq<PeerView>, p: PeerView) -> Seq<PeerView> {
    if has_id(s, p.id) {
        s.update(index_of(s, p.id), p)
    } else {
        s.push(p)
    }
}

/// The registry after node `local` resolved peer `p`: itself it never stores.
pub open spec fn after_resolved(s: Seq<PeerView>, local: u128, p: PeerView) -> Seq<PeerView> {
    if p.id == local {
        s
    } else {
        upsert(s, p)
    }
}

/// The registry after the node advertised under `name` went away.
pub open spec fn after_removed(s: Seq<PeerView>, name: Seq<char>) -> Seq<PeerView> {
    s.filter(not_named(name))
}

/// Holds of the peers not advertised under `name`.
pub open spec fn not_named(name: Seq<char>) -> spec_fn(PeerView) -> bool {
    |p: PeerView| p.name != name
}

/// This node, and the peers it knows.
pub struct Network {
    pub peer_id: u128,
    pub peer_name: String,
    pub port: u16,
    pub peers: Vec<Peer>,
}

impl Network {
    /// The known peers.
    pub open spec fn peers_view(&self) -> Seq<PeerView> {
        views(self.peers@)
    }

    /// Peer ids are unique, and this node is not among its own peers.
    pub open spec fn wf(&self) -> bool {
        &&& unique_ids(self.peers_view())
        &&& !has_id(self.peers_view(), self.peer_id)
    }

    /// A node with a fresh random id and no known peers.
    pub fn new(name: String, port: u16) -> (r: Network)
        ensures
            r.wf(),
            r.peer_name == name,
            r.port == port,
            r.peers_view() == Seq::<PeerView>::empty(),
    {
        Self::with_id(fresh_id(), name, port)
    }

    /// A node with id `id` and no known peers.
    pub fn with_id(id: u128, name: String, port: u16) -> (r: Network)
        ensures
            r.wf(),
            r.peer_id == id,
            r.peer_name == name,
            r.port == port,
            r.peers_view() == Seq::<PeerView>::empty(),
    {
        let r = Network { peer_id: id, peer_name: name, port, peers: Vec::new() };
        assert(r.peers_view() =~= Seq::<PeerView>::empty());
        r
    }

    /// The position of the peer with id `id`, if it is known.
    fn position(&self, id: u128) -> (r: Option<usize>)
        requires
            self.wf(),
        ensures
            match r {
                Some(i) => i < self.peers_view().len() && i == index_of(self.peers_view(), id)
                    && self.peers_view()[i as int].id == id,
                None => !has_id(self.peers_view(), id),
            },
    {
        let mut i: usize = 0;
        while i < self.peers.len()
            invariant
                i <= self.peers@.len(),
                self.wf(),
                self.peers_view().len() == self.peers@.len(),
                forall|j: int| 0 <= j < i ==> self.peers_view()[j].id != id,
            decreases self.peers@.len() - i,
        {
            if self.peers[i].id == id {
                let ghost s = self.peers_view();
                assert(s[i as int].id == id);
                assert(has_id(s, id));
                let ghost k = index_of(s, id);
                assert(0 <= k < s.len() && s[k].id == id);
                assert(k == i) by {
                    if k < i {
                        assert(s[k].id != s[i as int].id);
                    } else if k > i {
                        assert(s[i as int].id != s[k].id);
                    }
                }
                return Some(i);
            }
            i = i + 1;
        }
        None
    }

    /// Records the peer resolved with id `id`, unless `id` is this node's own.
    /// A peer already stored under `id` is replaced.
    pub fn peer_resolved(&mut self, id: u128, name: String, addr: String)
        requires
            old(self).wf(),
        ensures
            final(self).wf(),
            final(self).peer_id == old(self).peer_id,
            final(self).peer_name == old(self).peer_name,
            final(self).port == old(self).port,
            final(self).peers_view() == after_resolved(
                old(self).peers_view(),
                old(self).peer_id,
                PeerView { id, name: name@, addr: addr@ },
            ),
    {
        if id == self.peer_id {
            return;
        }
        let ghost s = self.peers_view();
        let p = Peer { id, name, addr };
        match self.position(id) {
            Some(i) => {
                self.peers.set(i, p);
                assert(self.peers_view() =~= s.update(i as int, p@));
            },
            None => {
                self.peers.push(p);
                assert(self.peers_view() =~= s.push(p@));
            },
        }
        assert(unique_ids(self.peers_view()));
        assert(!has_id(self.peers_view(), self.peer_id)) by {
            if has_id(self.peers_view(), self.peer_id) {
                let k = choose|k: int|
                    0 <= k < self.peers_view().len() && self.peers_view()[k].id == self.peer_id;
                if k < s.len() && self.peers_view()[k] != p@ {
                    assert(s[k].id == self.peer_id);
                }
            }
        }
    }

    /// Forgets every peer advertised under `name`.
    pub fn peer_removed(&mut self, name: &String)
        requires
            old(self).wf(),
        ensures
            final(self).wf(),
            final(self).peer_id == old(self).peer_id,
            final(self).peer_name == old(self).peer_name,
            final(self).port == old(self).port,
            final(self).peers_view() == after_removed(old(self).peers_view(), name@),
    {
        let ghost s = self.peers_view();
        let ghost mut idx: Seq<int> = Seq::empty();
        let mut kept: Vec<Peer> = Vec::new();
        let mut i: usize = 0;
        while i < self.peers.len()
            invariant
                i <= self.peers@.len(),
                s == views(self.peers@),
                views(kept@) == s.take(i as int).filter(not_named(name@)),
                idx.len() == kept@.len(),
                forall|k: int| 0 <= k < idx.len() ==> 0 <= #[trigger] idx[k] < i,
                forall|k: int| 0 <= k < idx.len() ==> views(kept@)[k] == s[#[trigger] idx[k]],
                forall|a: int, b: int| 0 <= a < b < idx.len() ==> idx[a] < idx[b],
            decreases self.peers@.len() - i,
        {
            let ghost before = views(kept@);
            proof {
                reveal(Seq::filter);
                let pred = not_named(name@);
                let t = s.take(i + 1);
                assert(t.drop_last() =~= s.take(i as int));
                assert(t.last() == s[i as int]);
                assert(t.filter(pred) == if pred(s[i as int]) {
                    s.take(i as int).filter(pred).push(s[i as int])
                } else {
                    s.take(i as int).filter(pred)
                });
            }
            if !(self.peers[i].name == *name) {
                let p = self.peers[i].duplicate();
                kept.push(p);
                proof {
                    idx = idx.push(i as int);
                }
                assert(not_named(name@)(s[i as int]));
                assert(views(kept@) =~= before.push(s[i as int]));
            } else {
                assert(!not_named(name@)(s[i as int]));
            }
            assert(views(kept@) == s.take(i + 1).filter(not_named(name@)));
            i = i + 1;
        }
        assert(s.take(self.peers@.len() as int) =~= s);
        let ghost local = self.peer_id;
        self.peers = kept;
        assert forall|a: int, b: int|
            0 <= a < b < self.peers_view().len() implies self.peers_view()[a].id
            != self.peers_view()[b].id by {
            assert(self.peers_view()[a] == s[idx[a]]);
            assert(self.peers_view()[b] == s[idx[b]]);
        }
        assert(!has_id(self.peers_view(), local)) by {
            if has_id(self.peers_view(), local) {
                let k = choose|k: int|
                    0 <= k < self.peers_view().len() && self.peers_view()[k].id == local;
                assert(self.peers_view()[k] == s[idx[k]]);
            }
        }
    }

    /// Applies one discovery event. A resolved node with an address is
    /// stored under a fresh random id (discovery does not carry the node's
    /// own id), unless that id happens to be this node's.
    pub fn on_discovery_event(&mut self, event: DiscoveryEvent)
        requires
            old(self).wf(),
        ensures
            final(self).wf(),
            final(self).peer_id == old(self).peer_id,
            final(self).peer_name == old(self).peer_name,
            final(self).port == old(self).port,
            match event {
                DiscoveryEvent::Resolved { name, addr: Some(a) } => exists|id: u128|
                    final(self).peers_view() == after_resolved(
                        old(self).peers_view(),
                        old(self).peer_id,
                        PeerView { id, name: name@, addr: a@ },
                    ),
                DiscoveryEvent::Removed { name } => final(self).peers_view() == after_removed(
                    old(self).peers_view(),
                    name@,
                ),
                _ => final(self).peers_view() == old(self).peers_view(),
            },
    {
        match event {
            DiscoveryEvent::Resolved { name, addr } => {
                match addr {
                    Some(a) => {
                        let id = fresh_id();
                        let ghost p = PeerView { id, name: name@, addr: a@ };
                        self.peer_resolved(id, name, a);
                        assert(final(self).peers_view() == after_resolved(
                            old(self).peers_view(), old(self).peer_id, p));
                    },
                    None => {},
                }
            },
            DiscoveryEvent::Removed { name } => {
                self.peer_removed(&name);
            },
            DiscoveryEvent::Other => {},
        }
    }

    /// A snapshot of the known peers.
    pub fn list_peers(&self) -> (r: Vec<Peer>)
        ensures
            views(r@) == self.peers_view(),
    {
        let mut out: Vec<Peer> = Vec::new();
        let mut i: usize = 0;
        while i < self.peers.len()
            invariant
                i <= self.peers@.len(),
                views(out@) == views(self.peers@).take(i as int),
            decreases self.peers@.len() - i,
        {
            let p = self.peers[i].duplicate();
            let ghost before = out@;
            out.push(p);
            assert(views(out@) =~= views(before).push(p@));
            assert(views(out@) =~= views(self.peers@).take(i + 1));
            i = i + 1;
        }
        assert(views(self.peers@).take(i as int) =~= views(self.peers@));
        out
    }

    /// Resolves `peer_id` and frames `msg`: the caller connects to `addr` and
    /// writes `frame`. `PeerNotFound` exactly when no known peer has that id.
    pub fn send_message(&self, peer_id: u128, msg: Message) -> (r: Result<Outbound, NetworkError>)
        requires
            self.wf(),
        ensures
            r == Err::<Outbound, NetworkError>(NetworkError::PeerNotFound) <==> !has_id(
                self.peers_view(),
                peer_id,
            ),
            r matches Ok(o) ==> {
                &&& has_id(self.peers_view(), peer_id)
                &&& o.addr@ == self.peers_view()[index_of(self.peers_view(), peer_id)].addr
                &&& o.frame@ == frame_of(encoding(msg@))
            },
            r matches Err(NetworkError::Codec(e)) ==> {
                &&& has_id(self.peers_view(), peer_id)
                &&& e == CodecError::Unrepresentable
                &&& encoding(msg@).len() > MAX_PAYLOAD
            },
    {
        let i = match self.position(peer_id) {
            Some(i) => i,
            None => return Err(NetworkError::PeerNotFound),
        };
        match frame_message(&msg) {
            Ok(frame) => Ok(Outbound { addr: self.peers[i].addr.clone(), frame }),
            Err(e) => Err(NetworkError::Codec(e)),
        }
    }

    /// The host name this node advertises: its name under `.local.`.
    pub fn host_name(&self) -> (r: String)
        ensures
            r@ == self.peer_name@ + ".local."@,
    {
        let mut h = self.peer_name.clone();
        h.append(".local.");
        h
    }
}

/// A node never stores itself: when no stored peer has the node's id, none
/// does after any resolution event.
pub proof fn lemma_self_never_stored(peers: Seq<PeerView>, local: u128, p: PeerView)
    requires
        !has_id(peers, local),
    ensures
        !has_id(after_resolved(peers, local, p), local),
{
    if p.id != local {
        let r = upsert(peers, p);
        if has_id(r, local) {
            let k = choose|k: int| 0 <= k < r.len() && r[k].id == local;
            if has_id(peers, p.id) {
                assert(r[k] == peers[k]);
            } else {
                assert(r[k] == peers[k]);
            }
        }
    }
}

/// After the node advertised under `name` went away, no stored peer has
/// that name.
pub proof fn lemma_removed_name_absent(peers: Seq<PeerView>, name: Seq<char>)
    ensures
        forall|i: int|
            0 <= i < after_removed(peers, name).len() ==> #[trigger] after_removed(
                peers,
                name,
            )[i].name != name,
{
    assert forall|i: int| 0 <= i < after_removed(peers, name).len() implies #[trigger] after_removed(
        peers,
        name,
    )[i].name != name by {
        peers.lemma_filter_pred(not_named(name), i);
    }
}

impl Peer {
    /// A copy of this peer.
    pub fn duplicate(&self) -> (r: Peer)
        ensures
            r@ == self@,
    {
        Peer { id: self.id, name: self.name.clone(), addr: self.addr.clone() }
    }
}

} // verus!
