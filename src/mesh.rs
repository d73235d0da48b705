use vstd::prelude::*;
use crate::peer::{PeerId, Address, ids_of, lemma_ids_push};
use crate::shards::{ShardTable, rebalanced, put, entries_of, lemma_rebalanced_owners};

verus! {

/// The address table as plain values: peer identity and address.
pub open spec fn addr_view(s: Seq<(PeerId, Address)>) -> Seq<(Seq<u8>, Address)> {
    s.map_values(|e: (PeerId, Address)| (e.0@, e.1))
}

/// The peer identities that are keys of the address table, in order.
pub open spec fn keys_of(s: Seq<(Seq<u8>, Address)>) -> Seq<Seq<u8>> {
    s.map_values(|e: (Seq<u8>, Address)| e.0)
}

/// The addresses of the address table, in order.
pub open spec fn addrs_of(s: Seq<(Seq<u8>, Address)>) -> Seq<Address> {
    s.map_values(|e: (Seq<u8>, Address)| e.1)
}

/// The live set after `p` is discovered: unchanged if `p` is already live.
pub open spec fn with_peer(s: Seq<Seq<u8>>, p: Seq<u8>) -> Seq<Seq<u8>> {
    if s.contains(p) {
        s
    } else {
        s.push(p)
    }
}

/// The live set after `p` expires: unchanged if `p` is not live.
pub open spec fn without_peer(s: Seq<Seq<u8>>, p: Seq<u8>) -> Seq<Seq<u8>> {
    if s.contains(p) {
        s.remove(s.index_of(p))
    } else {
        s
    }
}

/// The address table after `p` is recorded at `a`: the entry of `p` is
/// overwritten in place, or a new entry is appended.
pub open spec fn set_addr(s: Seq<(Seq<u8>, Address)>, p: Seq<u8>, a: Address) -> Seq<(Seq<u8>, Address)> {
    if keys_of(s).contains(p) {
        s.update(keys_of(s).index_of(p), (p, a))
    } else {
        s.push((p, a))
    }
}

/// The address table after the entry of `p`, if any, is removed.
pub open spec fn drop_addr(s: Seq<(Seq<u8>, Address)>, p: Seq<u8>) -> Seq<(Seq<u8>, Address)> {
    if keys_of(s).contains(p) {
        s.remove(keys_of(s).index_of(p))
    } else {
        s
    }
}

proof fn lemma_index_of_unique(s: Seq<Seq<u8>>, i: int)
    requires
        s.no_duplicates(),
        0 <= i < s.len(),
    ensures
        s.index_of(s[i]) == i,
{
    assert(s.contains(s[i]));
}

/// A mesh node's view: its own identity, the live peers, the address table
/// and the shard table.
pub struct Mesh {
    local: PeerId,
    live: Vec<PeerId>,
    addrs: Vec<(PeerId, Address)>,
    shards: ShardTable,
}

impl Mesh {
    /// This node's identity.
    pub closed spec fn local_id(&self) -> Seq<u8> {
        self.local@
    }

    /// The live peers, in order of discovery.
    pub closed spec fn live_ids(&self) -> Seq<Seq<u8>> {
        ids_of(self.live@)
    }

    /// The address table, in order of first resolution.
    pub closed spec fn addr_table(&self) -> Seq<(Seq<u8>, Address)> {
        addr_view(self.addrs@)
    }

    /// The shard table.
    pub closed spec fn shard_table(&self) -> Seq<(u64, Seq<u8>)> {
        self.shards@
    }

    pub closed spec fn shards_wf(&self) -> bool {
        self.shards.wf()
    }

    /// The ordered active set: the live peers, then this node.
    pub open spec fn active_ids(&self) -> Seq<Seq<u8>> {
        self.live_ids().push(self.local_id())
    }

    pub open spec fn wf(&self) -> bool {
        &&& self.live_ids().no_duplicates()
        &&& keys_of(self.addr_table()).no_duplicates()
        &&& forall|p: Seq<u8>| #[trigger] keys_of(self.addr_table()).contains(p) ==> self.live_ids().contains(p)
        &&& self.shards_wf()
    }

    /// A node with identity `local`, no known peer and an empty shard table.
    pub fn new(local: PeerId) -> (r: Mesh)
        ensures
            r.wf(),
            r.local_id() == local@,
            r.live_ids() == Seq::<Seq<u8>>::empty(),
            r.addr_table() == Seq::<(Seq<u8>, Address)>::empty(),
            r.shard_table() == Seq::<(u64, Seq<u8>)>::empty(),
    {
        let r = Mesh { local, live: Vec::new(), addrs: Vec::new(), shards: ShardTable::new() };
        assert(r.live_ids() =~= Seq::<Seq<u8>>::empty());
        assert(r.addr_table() =~= Seq::<(Seq<u8>, Address)>::empty());
        r
    }

    fn find_live(&self, p: &PeerId) -> (r: Option<usize>)
        ensures
            r is None ==> !self.live_ids().contains(p@),
            r matches Some(i) ==> i < self.live_ids().len() && self.live_ids()[i as int] == p@,
    {
        let mut i: usize = 0;
        while i < self.live.len()
            invariant
                i <= self.live@.len(),
                forall|j: int| 0 <= j < i ==> self.live_ids()[j] != p@,
            decreases self.live@.len() - i,
        {
            if self.live[i].same(p) {
                return Some(i);
            }
            i = i + 1;
        }
        None
    }

    fn find_addr(&self, p: &PeerId) -> (r: Option<usize>)
        ensures
            r is None ==> !keys_of(self.addr_table()).contains(p@),
            r matches Some(i) ==> i < self.addr_table().len() && keys_of(self.addr_table())[i as int] == p@,
    {
        let mut i: usize = 0;
        while i < self.addrs.len()
            invariant
                i <= self.addrs@.len(),
                forall|j: int| 0 <= j < i ==> keys_of(self.addr_table())[j] != p@,
            decreases self.addrs@.len() - i,
        {
            if self.addrs[i].0.same(p) {
                return Some(i);
            }
            i = i + 1;
        }
        None
    }

    /// Records a discovered peer: it becomes live, and where an address was
    /// resolved for it, that address is recorded or overwrites the old one.
    pub fn discovered(&mut self, peer: PeerId, addr: Option<Address>)
        requires
            old(self).wf(),
        ensures
            final(self).wf(),
            final(self).local_id() == old(self).local_id(),
            final(self).live_ids() == with_peer(old(self).live_ids(), peer@),
            final(self).addr_table() == match addr {
                Some(a) => set_addr(old(self).addr_table(), peer@, a),
                None => old(self).addr_table(),
            },
            final(self).shard_table() == old(self).shard_table(),
    {
        let ghost live0 = self.live_ids();
        let ghost tab0 = self.addr_table();
        let ghost p = peer@;
        match self.find_live(&peer) {
            Some(_) => {},
            None => {
                self.live.push(peer.duplicate());
                assert(self.live_ids() =~= live0.push(p));
                assert forall|i: int, j: int|
                    0 <= i < self.live_ids().len() && 0 <= j < self.live_ids().len() && i != j
                    implies self.live_ids()[i] != self.live_ids()[j] by {
                    if i == live0.len() {
                        assert(live0.contains(self.live_ids()[j]));
                    } else if j == live0.len() {
                        assert(live0.contains(self.live_ids()[i]));
                    }
                }
            },
        }
        assert(self.live_ids() == with_peer(live0, p));
        assert(self.live_ids().contains(p)) by {
            if live0.contains(p) {
                let k = choose|k: int| 0 <= k < live0.len() && live0[k] == p;
                assert(self.live_ids()[k] == p);
            } else {
                assert(self.live_ids()[live0.len() as int] == p);
            }
        }
        assert forall|q: Seq<u8>| live0.contains(q) implies self.live_ids().contains(q) by {
            let k = choose|k: int| 0 <= k < live0.len() && live0[k] == q;
            assert(self.live_ids()[k] == q);
        }
        if let Some(a) = addr {
            match self.find_addr(&peer) {
                Some(i) => {
                    proof {
                        lemma_index_of_unique(keys_of(tab0), i as int);
                    }
                    self.addrs.set(i, (peer, a));
                    assert(self.addr_table() =~= tab0.update(i as int, (p, a)));
                    assert(keys_of(self.addr_table()) =~= keys_of(tab0));
                },
                None => {
                    self.addrs.push((peer, a));
                    assert(self.addr_table() =~= tab0.push((p, a)));
                    assert(keys_of(self.addr_table()) =~= keys_of(tab0).push(p));
                    assert forall|i: int, j: int|
                        0 <= i < keys_of(self.addr_table()).len() && 0 <= j < keys_of(self.addr_table()).len() && i != j
                        implies keys_of(self.addr_table())[i] != keys_of(self.addr_table())[j] by {
                        if i == tab0.len() {
                            assert(keys_of(tab0).contains(keys_of(self.addr_table())[j]));
                        } else if j == tab0.len() {
                            assert(keys_of(tab0).contains(keys_of(self.addr_table())[i]));
                        }
                    }
                },
            }
            assert forall|q: Seq<u8>| #[trigger] keys_of(self.addr_table()).contains(q) implies self.live_ids().contains(q) by {
                if q != p {
                    let k = choose|k: int| 0 <= k < keys_of(self.addr_table()).len() && keys_of(self.addr_table())[k] == q;
                    assert(keys_of(tab0)[k] == q);
                    assert(keys_of(tab0).contains(q));
                    assert(live0.contains(q));
                }
            }
        }
    }

    /// Forgets an expired peer: it leaves the live set and the address
    /// table, and the shard table is then rebalanced against the new active set.
    pub fn expired(&mut self, peer: &PeerId)
        requires
            old(self).wf(),
        ensures
            final(self).wf(),
            final(self).local_id() == old(self).local_id(),
            final(self).live_ids() == without_peer(old(self).live_ids(), peer@),
            final(self).addr_table() == drop_addr(old(self).addr_table(), peer@),
            final(self).shard_table() == rebalanced(old(self).shard_table(), final(self).active_ids()),
    {
        let ghost live0 = self.live_ids();
        let ghost tab0 = self.addr_table();
        let ghost p = peer@;
        if let Some(i) = self.find_live(peer) {
            proof {
                lemma_index_of_unique(live0, i as int);
            }
            self.live.remove(i);
            assert(self.live_ids() =~= live0.remove(i as int));
        }
        assert(self.live_ids() == without_peer(live0, p));
        assert forall|q: Seq<u8>| #[trigger] self.live_ids().contains(q) implies live0.contains(q) by {
            let k = choose|k: int| 0 <= k < self.live_ids().len() && self.live_ids()[k] == q;
            if live0.contains(p) {
                let i = live0.index_of(p);
                if k < i {
                    assert(live0[k] == q);
                } else {
                    assert(live0[k + 1] == q);
                }
            }
        }
        if let Some(i) = self.find_addr(peer) {
            proof {
                lemma_index_of_unique(keys_of(tab0), i as int);
            }
            self.addrs.remove(i);
            assert(self.addr_table() =~= tab0.remove(i as int));
            assert(keys_of(self.addr_table()) =~= keys_of(tab0).remove(i as int));
        }
        assert(self.addr_table() == drop_addr(tab0, p));
        assert forall|q: Seq<u8>| #[trigger] keys_of(self.addr_table()).contains(q) implies self.live_ids().contains(q) by {
            let k = choose|k: int| 0 <= k < keys_of(self.addr_table()).len() && keys_of(self.addr_table())[k] == q;
            if keys_of(tab0).contains(p) {
                let i = keys_of(tab0).index_of(p);
                if k < i {
                    assert(keys_of(tab0)[k] == q);
                } else {
                    assert(keys_of(tab0)[k + 1] == q);
                }
            } else {
                assert(keys_of(tab0)[k] == q);
            }
            assert(keys_of(tab0).contains(q));
            assert(live0.contains(q));
            assert(q != p);
            if live0.contains(p) {
                let i = live0.index_of(p);
                let m = live0.index_of(q);
                assert(live0[m] == q);
                if m < i {
                    assert(self.live_ids()[m] == q);
                } else {
                    assert(m != i);
                    assert(self.live_ids()[m - 1] == q);
                }
            }
        }
        self.rebalance();
    }

    /// The ordered active set as values: the live peers, then this node.
    fn active(&self) -> (r: Vec<PeerId>)
        ensures
            ids_of(r@) == self.active_ids(),
    {
        let mut r: Vec<PeerId> = Vec::new();
        let mut i: usize = 0;
        while i < self.live.len()
            invariant
                i <= self.live@.len(),
                ids_of(r@) =~= self.live_ids().take(i as int),
            decreases self.live@.len() - i,
        {
            let q = self.live[i].duplicate();
            let ghost r0 = r@;
            proof {
                lemma_ids_push(r0, q);
            }
            r.push(q);
            i = i + 1;
            assert(ids_of(r@) =~= self.live_ids().take(i as int));
        }
        let me = self.local.duplicate();
        proof {
            lemma_ids_push(r@, me);
        }
        r.push(me);
        assert(ids_of(r@) =~= self.active_ids());
        r
    }

    /// Reassigns the shards whose owner is not in the active set; see
    /// `rebalanced`. The active set always holds this node, so afterwards
    /// every shard has an active owner.
    pub fn rebalance(&mut self)
        requires
            old(self).wf(),
        ensures
            final(self).wf(),
            final(self).local_id() == old(self).local_id(),
            final(self).live_ids() == old(self).live_ids(),
            final(self).addr_table() == old(self).addr_table(),
            final(self).shard_table() == rebalanced(old(self).shard_table(), old(self).active_ids()),
    {
        let active = self.active();
        self.shards.rebalance(&active);
    }

    /// Gives shard `shard_id` to `peer`, overwriting any earlier owner.
    pub fn insert_shard(&mut self, shard_id: u64, peer: PeerId)
        requires
            old(self).wf(),
        ensures
            final(self).wf(),
            final(self).local_id() == old(self).local_id(),
            final(self).live_ids() == old(self).live_ids(),
            final(self).addr_table() == old(self).addr_table(),
            final(self).shard_table() == put(old(self).shard_table(), shard_id, peer@),
    {
        self.shards.insert_or_update(shard_id, peer);
    }

    /// A copy of the shard table, in increasing shard order.
    pub fn shards(&self) -> (r: Vec<(u64, PeerId)>)
        ensures
            entries_of(r@) == self.shard_table(),
    {
        self.shards.snapshot()
    }

    /// A copy of the live peer set, in order of discovery.
    pub fn peers(&self) -> (r: Vec<PeerId>)
        ensures
            ids_of(r@) == self.live_ids(),
    {
        let mut r: Vec<PeerId> = Vec::new();
        let mut i: usize = 0;
        while i < self.live.len()
            invariant
                i <= self.live@.len(),
                ids_of(r@) =~= self.live_ids().take(i as int),
            decreases self.live@.len() - i,
        {
            let q = self.live[i].duplicate();
            let ghost r0 = r@;
            proof {
                lemma_ids_push(r0, q);
            }
            r.push(q);
            i = i + 1;
            assert(ids_of(r@) =~= self.live_ids().take(i as int));
        }
        assert(self.live_ids().take(i as int) =~= self.live_ids());
        r
    }

    /// A copy of the address table, in order of first resolution.
    pub fn addresses(&self) -> (r: Vec<(PeerId, Address)>)
        ensures
            addr_view(r@) == self.addr_table(),
    {
        let mut r: Vec<(PeerId, Address)> = Vec::new();
        let mut i: usize = 0;
        while i < self.addrs.len()
            invariant
                i <= self.addrs@.len(),
                addr_view(r@) =~= self.addr_table().take(i as int),
            decreases self.addrs@.len() - i,
        {
            let q = self.addrs[i].0.duplicate();
            let a = self.addrs[i].1;
            let ghost r0 = r@;
            r.push((q, a));
            assert(addr_view(r@) =~= addr_view(r0).push((q@, a)));
            i = i + 1;
            assert(addr_view(r@) =~= self.addr_table().take(i as int));
        }
        assert(self.addr_table().take(i as int) =~= self.addr_table());
        r
    }

    /// The addresses of the address table, in the table's order: the
    /// dispatch targets of a router.
    pub fn targets(&self) -> (r: Vec<Address>)
        ensures
            r@ == addrs_of(self.addr_table()),
    {
        let mut r: Vec<Address> = Vec::new();
        let mut i: usize = 0;
        while i < self.addrs.len()
            invariant
                i <= self.addrs@.len(),
                r@ =~= addrs_of(self.addr_table()).take(i as int),
            decreases self.addrs@.len() - i,
        {
            r.push(self.addrs[i].1);
            i = i + 1;
            assert(r@ =~= addrs_of(self.addr_table()).take(i as int));
        }
        assert(addrs_of(self.addr_table()).take(i as int) =~= addrs_of(self.addr_table()));
        r
    }

    /// This node's identity.
    pub fn local_peer_id(&self) -> (r: PeerId)
        ensures
            r@ == self.local_id(),
    {
        self.local.duplicate()
    }
}

/// Every peer of the address table is live, and once a peer expires its
/// address entry is gone.
pub proof fn lemma_address_table_consistent(m: Mesh, p: Seq<u8>)
    requires
        m.wf(),
    ensures
        forall|q: Seq<u8>| #[trigger] keys_of(m.addr_table()).contains(q) ==> m.live_ids().contains(q),
        !keys_of(drop_addr(m.addr_table(), p)).contains(p),
{
    let s = m.addr_table();
    if keys_of(s).contains(p) {
        let i = keys_of(s).index_of(p);
        let t = drop_addr(s, p);
        assert(keys_of(t) =~= keys_of(s).remove(i));
        if keys_of(t).contains(p) {
            let k = choose|k: int| 0 <= k < keys_of(t).len() && keys_of(t)[k] == p;
            if k < i {
                assert(keys_of(s)[k] == p);
            } else {
                assert(keys_of(s)[k + 1] == p);
            }
        }
    }
}

/// A shard whose owner is neither live nor this node is, after a rebalance,
/// still in the table under the same identifier, owned by an active peer,
/// and so never by its former owner.
pub proof fn lemma_orphan_reassigned(m: Mesh, gone: Seq<u8>, i: int)
    requires
        m.wf(),
        !m.live_ids().contains(gone),
        gone != m.local_id(),
        0 <= i < m.shard_table().len(),
        m.shard_table()[i].1 == gone,
    ensures
        rebalanced(m.shard_table(), m.active_ids())[i].0 == m.shard_table()[i].0,
        m.active_ids().contains(rebalanced(m.shard_table(), m.active_ids())[i].1),
        rebalanced(m.shard_table(), m.active_ids())[i].1 != gone,
{
    let a = m.active_ids();
    assert(a[a.len() - 1] == m.local_id());
    lemma_rebalanced_owners(m.shard_table(), a);
    if a.contains(gone) {
        let k = choose|k: int| 0 <= k < a.len() && a[k] == gone;
        assert(m.live_ids()[k] == gone);
    }
}

} // verus!
