use vstd::prelude::*;

use crate::envelope::{PeerIdentity, bytes_equal, copy_bytes};

verus! {

/// Whether a known peer is reachable.
#[derive(Clone, Copy, Debug, PartialEq, Eq, Structural)]
pub enum ConnectionStatus {
    Connected,
    Disconnected,
}

/// What the node knows of one peer: its identity, the addresses it was seen
/// at, and whether it is connected.
#[derive(Debug)]
pub struct PeerRecord {
    pub peer: PeerIdentity,
    pub addresses: Vec<Vec<u8>>,
    pub status: ConnectionStatus,
}

/// The directory as a mathematical value: for each known peer, in order of
/// discovery, its identity, its addresses and its status.
pub struct DirectoryModel {
    pub peers: Seq<Seq<u8>>,
    pub addresses: Seq<Seq<Seq<u8>>>,
    pub statuses: Seq<ConnectionStatus>,
}

/// `addrs` with `a` added when it is not there yet.
pub open spec fn add_address(addrs: Seq<Seq<u8>>, a: Seq<u8>) -> Seq<Seq<u8>> {
    if addrs.contains(a) {
        addrs
    } else {
        addrs.push(a)
    }
}

/// The directory after `peer` was discovered at `addr`: a known peer gains the
/// address and is connected again; an unknown one is added, connected.
pub open spec fn record_in(m: DirectoryModel, peer: Seq<u8>, addr: Seq<u8>) -> DirectoryModel {
    if m.peers.contains(peer) {
        let i = m.peers.index_of(peer);
        DirectoryModel {
            peers: m.peers,
            addresses: m.addresses.update(i, add_address(m.addresses[i], addr)),
            statuses: m.statuses.update(i, ConnectionStatus::Connected),
        }
    } else {
        DirectoryModel {
            peers: m.peers.push(peer),
            addresses: m.addresses.push(seq![addr]),
            statuses: m.statuses.push(ConnectionStatus::Connected),
        }
    }
}

/// The directory after each discovery of `found` in turn.
pub open spec fn record_all(m: DirectoryModel, found: Seq<(Seq<u8>, Seq<u8>)>) -> DirectoryModel
    decreases found.len(),
{
    if found.len() == 0 {
        m
    } else {
        let last = found.last();
        record_in(record_all(m, found.drop_last()), last.0, last.1)
    }
}

/// What the node must do about a discovery, beyond recording it.
#[derive(Debug)]
pub enum NodeAction {
    /// Register the address for the peer in the routing table.
    AddAddress(PeerIdentity, Vec<u8>),
    /// Add the peer to the broadcast group's partial view.
    AddToPartialView(PeerIdentity),
}

/// An action as a mathematical value.
pub enum ActionView {
    AddAddress(Seq<u8>, Seq<u8>),
    AddToPartialView(Seq<u8>),
}

pub open spec fn action_view(a: NodeAction) -> ActionView {
    match a {
        NodeAction::AddAddress(p, addr) => ActionView::AddAddress(p@, addr@),
        NodeAction::AddToPartialView(p) => ActionView::AddToPartialView(p@),
    }
}

/// The actions owed for the discoveries in `found`: for each, in order, the
/// routing-table entry and then the broadcast-group entry.
pub open spec fn discovery_actions(found: Seq<(Seq<u8>, Seq<u8>)>) -> Seq<ActionView>
    decreases found.len(),
{
    if found.len() == 0 {
        Seq::empty()
    } else {
        let last = found.last();
        discovery_actions(found.drop_last()) + seq![
            ActionView::AddAddress(last.0, last.1),
            ActionView::AddToPartialView(last.0),
        ]
    }
}

/// The peers the node knows, with their addresses.
pub struct PeerDirectory {
    records: Vec<PeerRecord>,
}

impl PeerDirectory {
    pub closed spec fn view(&self) -> DirectoryModel {
        DirectoryModel {
            peers: self.records@.map_values(|r: PeerRecord| r.peer@),
            addresses: self.records@.map_values(
                |r: PeerRecord| r.addresses@.map_values(|a: Vec<u8>| a@),
            ),
            statuses: self.records@.map_values(|r: PeerRecord| r.status),
        }
    }

    /// Each peer is listed once.
    pub open spec fn wf(&self) -> bool {
        self.view().peers.no_duplicates()
    }

    pub fn new() -> (r: Self)
        ensures
            r.wf(),
            r.view().peers.len() == 0,
            r.view().addresses.len() == 0,
            r.view().statuses.len() == 0,
    {
        let r = PeerDirectory { records: Vec::new() };
        assert(r.view().peers =~= Seq::<Seq<u8>>::empty());
        r
    }

    /// The position of `peer` in the directory, if it is known.
    fn find(&self, peer: &PeerIdentity) -> (r: Option<usize>)
        ensures
            match r {
                Some(i) => i < self.view().peers.len() && self.view().peers[i as int] == peer@,
                None => !self.view().peers.contains(peer@),
            },
    {
        let mut i: usize = 0;
        while i < self.records.len()
            invariant
                0 <= i <= self.records@.len(),
                forall|j: int| 0 <= j < i ==> self.view().peers[j] != peer@,
            decreases self.records@.len() - i,
        {
            if self.records[i].peer.same_as(peer) {
                return Some(i);
            }
            i = i + 1;
        }
        None
    }

    /// Records that `peer` was seen at `address`. Returns whether the peer is
    /// new to the directory.
    pub fn record_discovery(&mut self, peer: PeerIdentity, address: Vec<u8>) -> (joined: bool)
        requires
            old(self).wf(),
        ensures
            final(self).wf(),
            joined == !old(self).view().peers.contains(peer@),
            final(self).view() == record_in(old(self).view(), peer@, address@),
    {
        let ghost m = self.view();
        match self.find(&peer) {
            Some(i) => {
                proof {
                    assert(m.peers.contains(peer@));
                    m.peers.index_of_first_ensures(peer@);
                    let k = m.peers.index_of(peer@);
                    assert(k == i);
                }
                let mut rec = self.records.remove(i);
                let ghost old_addrs = rec.addresses@.map_values(|a: Vec<u8>| a@);
                assert(old_addrs == m.addresses[i as int]);
                let mut known = false;
                let mut j: usize = 0;
                while j < rec.addresses.len()
                    invariant
                        0 <= j <= rec.addresses@.len(),
                        old_addrs == rec.addresses@.map_values(|a: Vec<u8>| a@),
                        known ==> old_addrs.contains(address@),
                        !known ==> forall|k: int| 0 <= k < j ==> old_addrs[k] != address@,
                    decreases rec.addresses@.len() - j,
                {
                    if bytes_equal(rec.addresses[j].as_slice(), address.as_slice()) {
                        known = true;
                        assert(old_addrs[j as int] == address@);
                    }
                    j = j + 1;
                }
                if !known {
                    rec.addresses.push(address);
                }
                rec.status = ConnectionStatus::Connected;
                proof {
                    assert(rec.addresses@.map_values(|a: Vec<u8>| a@) =~= add_address(old_addrs, address@));
                }
                self.records.insert(i, rec);
                proof {
                    let n = record_in(m, peer@, address@);
                    assert(self.view().peers =~= n.peers);
                    assert(self.view().addresses =~= n.addresses);
                    assert(self.view().statuses =~= n.statuses);
                }
                false
            },
            None => {
                let ghost a = address@;
                let mut addresses: Vec<Vec<u8>> = Vec::new();
                addresses.push(address);
                let rec = PeerRecord { peer, addresses, status: ConnectionStatus::Connected };
                self.records.push(rec);
                proof {
                    let n = record_in(m, rec.peer@, a);
                    assert(rec.addresses@.map_values(|x: Vec<u8>| x@) =~= seq![a]);
                    assert(self.view().peers =~= n.peers);
                    assert(self.view().addresses =~= n.addresses);
                    assert(self.view().statuses =~= n.statuses);
                    assert(self.view().peers.no_duplicates());
                }
                true
            },
        }
    }

    /// The addresses at which `peer` was seen; none for an unknown peer.
    pub fn addresses_of(&self, peer: &PeerIdentity) -> (r: Vec<Vec<u8>>)
        requires
            self.wf(),
        ensures
            r@.map_values(|a: Vec<u8>| a@) == (if self.view().peers.contains(peer@) {
                self.view().addresses[self.view().peers.index_of(peer@)]
            } else {
                Seq::empty()
            }),
    {
        let mut out: Vec<Vec<u8>> = Vec::new();
        match self.find(peer) {
            None => {
                assert(out@.map_values(|a: Vec<u8>| a@) =~= Seq::<Seq<u8>>::empty());
            },
            Some(i) => {
                proof {
                    self.view().peers.index_of_first_ensures(peer@);
                }
                let addrs = &self.records[i].addresses;
                let ghost want = self.view().addresses[i as int];
                let mut j: usize = 0;
                while j < addrs.len()
                    invariant
                        0 <= j <= addrs@.len(),
                        out@.len() == j,
                        want.len() == addrs@.len(),
                        want == addrs@.map_values(|a: Vec<u8>| a@),
                        out@.map_values(|a: Vec<u8>| a@) == want.subrange(0, j as int),
                    decreases addrs@.len() - j,
                {
                    let c = copy_bytes(addrs[j].as_slice());
                    assert(c@ == want[j as int]);
                    let ghost before = out@;
                    out.push(c);
                    proof {
                        assert(out@ == before.push(c));
                        assert(before.map_values(|a: Vec<u8>| a@) == want.subrange(0, j as int));
                        assert forall|k: int| 0 <= k < j + 1 implies out@.map_values(|a: Vec<u8>| a@)[k] == want[k] by {
                            if k < j {
                                assert(out@[k] == before[k]);
                                assert(before.map_values(|a: Vec<u8>| a@)[k] == want.subrange(0, j as int)[k]);
                            }
                        }
                        assert(out@.map_values(|a: Vec<u8>| a@) =~= want.subrange(0, j + 1));
                    }
                    j = j + 1;
                }
                assert(want.subrange(0, want.len() as int) =~= want);
            },
        }
        out
    }

    /// Handles a discovery event: records each peer at its address, and
    /// returns for each, in order, the routing-table entry and the
    /// broadcast-group entry that the node must make.
    pub fn handle_discovered(&mut self, found: Vec<(PeerIdentity, Vec<u8>)>) -> (r: Vec<NodeAction>)
        requires
            old(self).wf(),
        ensures
            final(self).wf(),
            final(self).view() == record_all(
                old(self).view(),
                found@.map_values(|f: (PeerIdentity, Vec<u8>)| (f.0@, f.1@)),
            ),
            r@.map_values(|a: NodeAction| action_view(a)) == discovery_actions(
                found@.map_values(|f: (PeerIdentity, Vec<u8>)| (f.0@, f.1@)),
            ),
    {
        let ghost m0 = self.view();
        let ghost fv = found@.map_values(|f: (PeerIdentity, Vec<u8>)| (f.0@, f.1@));
        let mut actions: Vec<NodeAction> = Vec::new();
        let mut i: usize = 0;
        while i < found.len()
            invariant
                0 <= i <= found@.len(),
                fv == found@.map_values(|f: (PeerIdentity, Vec<u8>)| (f.0@, f.1@)),
                self.wf(),
                self.view() == record_all(m0, fv.subrange(0, i as int)),
                actions@.map_values(|a: NodeAction| action_view(a)) == discovery_actions(
                    fv.subrange(0, i as int),
                ),
            decreases found@.len() - i,
        {
            let peer = found[i].0.duplicate();
            let address = copy_bytes(found[i].1.as_slice());
            actions.push(NodeAction::AddAddress(peer.duplicate(), copy_bytes(address.as_slice())));
            actions.push(NodeAction::AddToPartialView(peer.duplicate()));
            self.record_discovery(peer, address);
            proof {
                let pre = fv.subrange(0, i as int);
                let cur = fv.subrange(0, i + 1);
                assert(cur.drop_last() =~= pre);
                assert(cur.last() == fv[i as int]);
                assert(actions@.map_values(|a: NodeAction| action_view(a)) =~= discovery_actions(cur));
            }
            i = i + 1;
        }
        assert(fv.subrange(0, found@.len() as int) =~= fv);
        actions
    }
}

} // verus!
