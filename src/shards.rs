use vstd::prelude::*;
use crate::peer::{PeerId, ids_of, contains_peer};

verus! {

/// Entries of a shard table as plain values: shard identifier and owner identity.
pub open spec fn entries_of(s: Seq<(u64, PeerId)>) -> Seq<(u64, Seq<u8>)> {
    s.map_values(|e: (u64, PeerId)| (e.0, e.1@))
}

/// Shard identifiers strictly increase along the table.
pub open spec fn sorted_by_shard(s: Seq<(u64, Seq<u8>)>) -> bool {
    forall|i: int, j: int| 0 <= i < j < s.len() ==> s[i].0 < s[j].0
}

/// Whether the table has an entry for shard `k`.
pub open spec fn has_shard(s: Seq<(u64, Seq<u8>)>, k: u64) -> bool {
    exists|i: int| 0 <= i < s.len() && s[i].0 == k
}

/// Number of the first `n` entries whose shard identifier is below `k`.
pub open spec fn count_below(s: Seq<(u64, Seq<u8>)>, k: u64, n: int) -> nat
    decreases n,
{
    if n <= 0 {
        0
    } else {
        count_below(s, k, n - 1) + if s[n - 1].0 < k { 1nat } else { 0nat }
    }
}

/// The table after shard `k` is given to owner `o`: the entry of `k` is
/// overwritten where there is one, else inserted at its place in shard order.
pub open spec fn put(s: Seq<(u64, Seq<u8>)>, k: u64, o: Seq<u8>) -> Seq<(u64, Seq<u8>)> {
    let p = count_below(s, k, s.len() as int) as int;
    if p < s.len() && s[p].0 == k {
        s.update(p, (k, o))
    } else {
        s.insert(p, (k, o))
    }
}

/// Number of the first `n` entries whose owner is not in `active`: the
/// orphaned entries that come before position `n`.
pub open spec fn orphans_before(s: Seq<(u64, Seq<u8>)>, active: Seq<Seq<u8>>, n: int) -> nat
    decreases n,
{
    if n <= 0 {
        0
    } else {
        orphans_before(s, active, n - 1) + if active.contains(s[n - 1].1) { 0nat } else { 1nat }
    }
}

/// The owner of entry `i` after a rebalance against `active` (not empty):
/// a held entry keeps its owner; the orphaned entry of rank `r` among the
/// orphans, counted in shard order, goes to `active[r mod |active|]`.
pub open spec fn new_owner(s: Seq<(u64, Seq<u8>)>, active: Seq<Seq<u8>>, i: int) -> Seq<u8> {
    if active.contains(s[i].1) {
        s[i].1
    } else {
        active[(orphans_before(s, active, i) % active.len()) as int]
    }
}

/// The table after a rebalance against the ordered active set. With no
/// active peer every entry is orphaned and removed.
pub open spec fn rebalanced(s: Seq<(u64, Seq<u8>)>, active: Seq<Seq<u8>>) -> Seq<(u64, Seq<u8>)> {
    if active.len() == 0 {
        Seq::empty()
    } else {
        Seq::new(s.len(), |i: int| (s[i].0, new_owner(s, active, i)))
    }
}

proof fn lemma_count_below(s: Seq<(u64, Seq<u8>)>, k: u64, p: int, n: int)
    requires
        0 <= p <= s.len(),
        0 <= n <= s.len(),
        forall|j: int| 0 <= j < p ==> s[j].0 < k,
        forall|j: int| p <= j < s.len() ==> s[j].0 >= k,
    ensures
        count_below(s, k, n) == if n < p { n } else { p },
    decreases n,
{
    if n > 0 {
        lemma_count_below(s, k, p, n - 1);
    }
}

proof fn lemma_no_orphans(s: Seq<(u64, Seq<u8>)>, active: Seq<Seq<u8>>, n: int)
    requires
        0 <= n <= s.len(),
        forall|j: int| 0 <= j < s.len() ==> active.contains(#[trigger] s[j].1),
    ensures
        orphans_before(s, active, n) == 0,
    decreases n,
{
    if n > 0 {
        lemma_no_orphans(s, active, n - 1);
    }
}

/// Mapping from shard identifier to owning peer, kept in increasing shard
/// order with one entry per shard.
pub struct ShardTable {
    entries: Vec<(u64, PeerId)>,
}

impl View for ShardTable {
    type V = Seq<(u64, Seq<u8>)>;

    closed spec fn view(&self) -> Seq<(u64, Seq<u8>)> {
        entries_of(self.entries@)
    }
}

impl ShardTable {
    pub open spec fn wf(&self) -> bool {
        sorted_by_shard(self@)
    }

    /// An empty table.
    pub fn new() -> (r: ShardTable)
        ensures
            r.wf(),
            r@ == Seq::<(u64, Seq<u8>)>::empty(),
    {
        let r = ShardTable { entries: Vec::new() };
        assert(r@ =~= Seq::<(u64, Seq<u8>)>::empty());
        r
    }

    /// Number of shards in the table.
    pub fn len(&self) -> (r: usize)
        ensures
            r == self@.len(),
    {
        self.entries.len()
    }

    /// Gives shard `shard_id` to `owner`, overwriting any earlier owner.
    pub fn insert_or_update(&mut self, shard_id: u64, owner: PeerId)
        requires
            old(self).wf(),
        ensures
            final(self).wf(),
            final(self)@ == put(old(self)@, shard_id, owner@),
    {
        let ghost s = self@;
        let n = self.entries.len();
        let mut p: usize = 0;
        while p < n && self.entries[p].0 < shard_id
            invariant
                n == s.len(),
                s == entries_of(self.entries@),
                sorted_by_shard(s),
                p <= n,
                forall|j: int| 0 <= j < p ==> s[j].0 < shard_id,
            decreases n - p,
        {
            assert(s[p as int].0 == self.entries@[p as int].0);
            p = p + 1;
        }
        proof {
            if p < n {
                assert(s[p as int].0 == self.entries@[p as int].0);
                assert forall|j: int| p <= j < s.len() implies s[j].0 >= shard_id by {
                    if j > p {
                        assert(s[p as int].0 < s[j].0);
                    }
                }
            }
            lemma_count_below(s, shard_id, p as int, s.len() as int);
        }
        let ghost o = owner@;
        if p < n && self.entries[p].0 == shard_id {
            self.entries.set(p, (shard_id, owner));
            assert(self@ =~= s.update(p as int, (shard_id, o)));
        } else {
            self.entries.insert(p, (shard_id, owner));
            assert(self@ =~= s.insert(p as int, (shard_id, o)));
        }
        assert(self@ == put(s, shard_id, o));
        assert(sorted_by_shard(self@)) by {
            let t = self@;
            assert forall|i: int, j: int| 0 <= i < j < t.len() implies t[i].0 < t[j].0 by {
                if p < n && s[p as int].0 == shard_id {
                } else {
                    if i < p && j > p {
                        assert(s[i].0 < s[j - 1].0 || i == j - 1);
                    }
                }
            }
        }
    }

    /// A copy of the table's entries, in increasing shard order.
    pub fn snapshot(&self) -> (r: Vec<(u64, PeerId)>)
        ensures
            entries_of(r@) == self@,
    {
        let mut r: Vec<(u64, PeerId)> = Vec::new();
        let mut i: usize = 0;
        while i < self.entries.len()
            invariant
                i <= self.entries@.len(),
                entries_of(r@) =~= entries_of(self.entries@).take(i as int),
            decreases self.entries@.len() - i,
        {
            let id = self.entries[i].0;
            let owner = self.entries[i].1.duplicate();
            let ghost r0 = r@;
            r.push((id, owner));
            assert(entries_of(r@) =~= entries_of(r0).push((id, owner@)));
            i = i + 1;
            assert(entries_of(r@) =~= entries_of(self.entries@).take(i as int));
        }
        assert(entries_of(self.entries@).take(i as int) =~= entries_of(self.entries@));
        r
    }

    /// Reassigns the shards whose owner is not in `active`; see `rebalanced`.
    pub fn rebalance(&mut self, active: &Vec<PeerId>)
        requires
            old(self).wf(),
        ensures
            final(self).wf(),
            final(self)@ == rebalanced(old(self)@, ids_of(active@)),
    {
        let ghost s = self@;
        let ghost a = ids_of(active@);
        let n = self.entries.len();
        let m = active.len();
        let mut out: Vec<(u64, PeerId)> = Vec::new();
        let mut k: usize = 0;
        let mut i: usize = 0;
        while i < n
            invariant
                n == s.len(),
                m == a.len(),
                a == ids_of(active@),
                s == entries_of(self.entries@),
                i <= n,
                k == orphans_before(s, a, i as int),
                k <= i,
                m > 0 ==> entries_of(out@) =~= rebalanced(s, a).take(i as int),
                m == 0 ==> out@.len() == 0,
            decreases n - i,
        {
            let held = contains_peer(active, &self.entries[i].1);
            assert(s[i as int].1 == self.entries@[i as int].1@);
            let id = self.entries[i].0;
            if held {
                let owner = self.entries[i].1.duplicate();
                out.push((id, owner));
            } else if m > 0 {
                let owner = active[k % m].duplicate();
                assert(a[(k % m) as int] == active@[(k % m) as int]@);
                out.push((id, owner));
            }
            if !held {
                k = k + 1;
            }
            i = i + 1;
            assert(m > 0 ==> entries_of(out@) =~= rebalanced(s, a).take(i as int));
        }
        assert(m > 0 ==> rebalanced(s, a).take(n as int) =~= rebalanced(s, a));
        self.entries = out;
        assert(m == 0 ==> self@ =~= rebalanced(s, a));
        assert(sorted_by_shard(self@));
    }
}

/// A rebalance leaves every entry with an owner in the active set, and keeps
/// the shard identifiers in place.
pub proof fn lemma_rebalanced_owners(s: Seq<(u64, Seq<u8>)>, active: Seq<Seq<u8>>)
    requires
        active.len() > 0,
    ensures
        rebalanced(s, active).len() == s.len(),
        forall|i: int| 0 <= i < s.len() ==> #[trigger] rebalanced(s, active)[i].0 == s[i].0,
        forall|i: int| 0 <= i < s.len() ==> active.contains(#[trigger] rebalanced(s, active)[i].1),
{
    let r = rebalanced(s, active);
    assert forall|i: int| 0 <= i < s.len() implies active.contains(#[trigger] r[i].1) by {
        if !active.contains(s[i].1) {
            let q = (orphans_before(s, active, i) % active.len()) as int;
            assert(active[q] == r[i].1);
        }
    }
}

/// Rebalancing twice against the same active set gives the same table as
/// rebalancing once.
pub proof fn lemma_rebalance_idempotent(s: Seq<(u64, Seq<u8>)>, active: Seq<Seq<u8>>)
    ensures
        rebalanced(rebalanced(s, active), active) == rebalanced(s, active),
{
    let r = rebalanced(s, active);
    if active.len() == 0 {
        assert(rebalanced(r, active) =~= r);
    } else {
        lemma_rebalanced_owners(s, active);
        assert forall|j: int| 0 <= j < r.len() implies active.contains(#[trigger] r[j].1) by {}
        assert forall|i: int| 0 <= i < r.len() implies #[trigger] new_owner(r, active, i) == r[i].1 by {}
        assert(rebalanced(r, active) =~= r);
    }
}

} // verus!
