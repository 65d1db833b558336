use vstd::prelude::*;

use crate::record::{
    digest_of, key_of, merged, newer, same_stamp, stamp_later, DigestEntry, GossipItem,
    GossipKey, MergeOutcome, RejectReason, NUM_KINDS,
};

verus! {

/// A stored item with the table tick at which it was last written.
#[derive(Clone, Copy, Debug, PartialEq, Eq, Structural)]
pub struct Entry {
    pub item: GossipItem,
    pub updated: u64,
}

pub open spec fn has_key(s: Seq<Entry>, k: GossipKey) -> bool {
    exists|i: int| 0 <= i < s.len() && #[trigger] key_of(s[i].item) == k
}

pub open spec fn keys_unique(s: Seq<Entry>) -> bool {
    forall|i: int, j: int|
        0 <= i < s.len() && 0 <= j < s.len() && i != j ==> key_of(#[trigger] s[i].item) != key_of(
            #[trigger] s[j].item,
        )
}

/// The entries as a map from key to entry.
pub open spec fn entries_view(s: Seq<Entry>) -> Map<GossipKey, Entry> {
    Map::new(
        |k: GossipKey| has_key(s, k),
        |k: GossipKey| s[choose|i: int| 0 <= i < s.len() && #[trigger] key_of(s[i].item) == k],
    )
}

/// What the holder of `current` for key `k` holds after offering `items` in
/// order, counting only items of that key and of compatibility tag `tag`.
pub open spec fn fold_merged(
    current: Option<GossipItem>,
    items: Seq<GossipItem>,
    k: GossipKey,
    tag: u16,
) -> Option<GossipItem>
    decreases items.len(),
{
    if items.len() == 0 {
        current
    } else {
        let prefix = fold_merged(current, items.drop_last(), k, tag);
        let x = items.last();
        if key_of(x) == k && x.shred_version == tag {
            Some(merged(prefix, x))
        } else {
            prefix
        }
    }
}

/// How many of `items`, offered in order to a table holding `m` with tag
/// `tag` and room for all of them, are accepted.
pub open spec fn accepted_count(m: Map<GossipKey, Entry>, items: Seq<GossipItem>, tag: u16) -> nat
    decreases items.len(),
{
    if items.len() == 0 {
        0
    } else {
        let x = items.last();
        let before = fold_merged(held(m, key_of(x)), items.drop_last(), key_of(x), tag);
        accepted_count(m, items.drop_last(), tag) + if x.shred_version == tag && (before is None
            || newer(x, before->Some_0)) {
            1nat
        } else {
            0nat
        }
    }
}

/// `d` summarises the `len` entries of `m`: one digest entry per entry, each
/// with the stamp held for its key.
pub open spec fn is_digest_of(m: Map<GossipKey, Entry>, len: nat, d: Seq<DigestEntry>) -> bool {
    &&& d.len() == len
    &&& forall|i: int|
        0 <= i < d.len() ==> m.contains_key(#[trigger] d[i].key) && d[i] == digest_of(m[d[i].key].item)
    &&& forall|k: GossipKey|
        #[trigger] m.contains_key(k) ==> exists|i: int| 0 <= i < d.len() && d[i].key == k
}

/// The item held for a key, if any.
pub open spec fn held(m: Map<GossipKey, Entry>, k: GossipKey) -> Option<GossipItem> {
    if m.contains_key(k) {
        Some(m[k].item)
    } else {
        None
    }
}

/// What `upsert` answers for `item` on a table holding `m` with compatibility tag `tag`.
pub open spec fn outcome_of(m: Map<GossipKey, Entry>, item: GossipItem, tag: u16) -> MergeOutcome {
    if item.shred_version != tag {
        MergeOutcome::Rejected(RejectReason::Incompatible)
    } else if !m.contains_key(key_of(item)) {
        MergeOutcome::Accepted
    } else if newer(item, m[key_of(item)].item) {
        MergeOutcome::Accepted
    } else if same_stamp(item, m[key_of(item)].item) {
        MergeOutcome::Unchanged
    } else {
        MergeOutcome::Rejected(RejectReason::Stale)
    }
}

/// Is `ev` a least-recently-updated entry among those not owned by `self_id`?
pub open spec fn is_eviction_victim(m: Map<GossipKey, Entry>, ev: GossipKey, self_id: u64) -> bool {
    &&& m.contains_key(ev)
    &&& ev.origin != self_id
    &&& forall|k: GossipKey|
        #[trigger] m.contains_key(k) && k.origin != self_id ==> m[ev].updated <= m[k].updated
}

/// Would the holder of `m` ask for the item that digest entry `d` describes?
pub open spec fn wants(m: Map<GossipKey, Entry>, d: DigestEntry) -> bool {
    !m.contains_key(d.key) || stamp_later(
        d.wallclock,
        d.version,
        m[d.key].item.wallclock,
        m[d.key].item.version,
    )
}

/// Is `item` strictly newer than everything the remote digest claims for its key?
pub open spec fn offered(remote: Seq<DigestEntry>, item: GossipItem) -> bool {
    forall|i: int|
        0 <= i < remote.len() && #[trigger] remote[i].key == key_of(item) ==> stamp_later(
            item.wallclock,
            item.version,
            remote[i].wallclock,
            remote[i].version,
        )
}

/// The keys of `remote` that the holder of `m` would ask for, in order.
pub open spec fn wanted_seq(m: Map<GossipKey, Entry>, remote: Seq<DigestEntry>) -> Seq<GossipKey>
    decreases remote.len(),
{
    if remote.len() == 0 {
        Seq::empty()
    } else {
        let prefix = wanted_seq(m, remote.drop_last());
        if wants(m, remote.last()) {
            prefix.push(remote.last().key)
        } else {
            prefix
        }
    }
}

/// The items that the holder of `m` holds for the requested keys, in order.
pub open spec fn pulled_seq(m: Map<GossipKey, Entry>, requested: Seq<GossipKey>) -> Seq<GossipItem>
    decreases requested.len(),
{
    if requested.len() == 0 {
        Seq::empty()
    } else {
        let prefix = pulled_seq(m, requested.drop_last());
        match held(m, requested.last()) {
            Some(item) => prefix.push(item),
            None => prefix,
        }
    }
}

proof fn lemma_view_at(s: Seq<Entry>, i: int)
    requires
        keys_unique(s),
        0 <= i < s.len(),
    ensures
        entries_view(s).contains_key(key_of(s[i].item)),
        entries_view(s)[key_of(s[i].item)] == s[i],
{
    let k = key_of(s[i].item);
    assert(has_key(s, k));
    let j = choose|j: int| 0 <= j < s.len() && #[trigger] key_of(s[j].item) == k;
    assert(i == j);
}

proof fn lemma_view_update(s: Seq<Entry>, j: int, e: Entry)
    requires
        keys_unique(s),
        0 <= j < s.len(),
        forall|i: int| 0 <= i < s.len() && i != j ==> key_of(#[trigger] s[i].item) != key_of(e.item),
    ensures
        keys_unique(s.update(j, e)),
        entries_view(s.update(j, e)) == entries_view(s).remove(key_of(s[j].item)).insert(
            key_of(e.item),
            e,
        ),
{
    let t = s.update(j, e);
    let old_k = key_of(s[j].item);
    let new_k = key_of(e.item);
    assert(keys_unique(t));
    let lhs = entries_view(t);
    let rhs = entries_view(s).remove(old_k).insert(new_k, e);
    assert forall|k: GossipKey| lhs.contains_key(k) <==> rhs.contains_key(k) by {
        if has_key(t, k) {
            let i = choose|i: int| 0 <= i < t.len() && #[trigger] key_of(t[i].item) == k;
            if i != j {
                assert(key_of(s[i].item) == k);
                assert(s[i] != s[j]);
            }
        }
        if k != new_k && has_key(s, k) && k != old_k {
            let i = choose|i: int| 0 <= i < s.len() && #[trigger] key_of(s[i].item) == k;
            assert(key_of(t[i].item) == k);
        }
        if k == new_k {
            assert(key_of(t[j].item) == k);
        }
    }
    assert forall|k: GossipKey| #[trigger] lhs.contains_key(k) implies lhs[k] == rhs[k] by {
        if k == new_k {
            lemma_view_at(t, j);
        } else {
            let i = choose|i: int| 0 <= i < t.len() && #[trigger] key_of(t[i].item) == k;
            lemma_view_at(t, i);
            lemma_view_at(s, i);
        }
    }
    assert(lhs =~= rhs);
}

proof fn lemma_view_push(s: Seq<Entry>, e: Entry)
    requires
        keys_unique(s),
        !has_key(s, key_of(e.item)),
    ensures
        keys_unique(s.push(e)),
        entries_view(s.push(e)) == entries_view(s).insert(key_of(e.item), e),
{
    let t = s.push(e);
    let new_k = key_of(e.item);
    assert forall|i: int| 0 <= i < s.len() implies key_of(#[trigger] s[i].item) != new_k by {
        if key_of(s[i].item) == new_k {
            assert(has_key(s, new_k));
        }
    }
    assert(keys_unique(t));
    let lhs = entries_view(t);
    let rhs = entries_view(s).insert(new_k, e);
    assert forall|k: GossipKey| lhs.contains_key(k) <==> rhs.contains_key(k) by {
        if has_key(t, k) && k != new_k {
            let i = choose|i: int| 0 <= i < t.len() && #[trigger] key_of(t[i].item) == k;
            assert(key_of(s[i].item) == k);
        }
        if has_key(s, k) {
            let i = choose|i: int| 0 <= i < s.len() && #[trigger] key_of(s[i].item) == k;
            assert(key_of(t[i].item) == k);
        }
        if k == new_k {
            assert(key_of(t[s.len() as int].item) == k);
        }
    }
    assert forall|k: GossipKey| #[trigger] lhs.contains_key(k) implies lhs[k] == rhs[k] by {
        if k == new_k {
            lemma_view_at(t, s.len() as int);
        } else {
            let i = choose|i: int| 0 <= i < t.len() && #[trigger] key_of(t[i].item) == k;
            lemma_view_at(t, i);
            lemma_view_at(s, i);
        }
    }
    assert(lhs =~= rhs);
}

/// A table with more entries than there are kinds holds an entry of another origin.
///
/// Pigeonhole over the first `NUM_KINDS + 1` entries: entries of one origin
/// differ in kind. The proof names those entries one by one, so it is to be
/// extended when a kind is added.
proof fn lemma_foreign_entry_exists(s: Seq<Entry>, id: u64)
    requires
        keys_unique(s),
        s.len() > NUM_KINDS,
    ensures
        exists|i: int| 0 <= i < s.len() && #[trigger] s[i].item.origin != id,
{
    if forall|i: int| 0 <= i < s.len() ==> #[trigger] s[i].item.origin == id {
        assert(s[0].item.origin == id && s[1].item.origin == id);
        assert(s[2].item.origin == id && s[3].item.origin == id);
        assert(key_of(s[0].item) != key_of(s[1].item));
        assert(key_of(s[0].item) != key_of(s[2].item));
        assert(key_of(s[0].item) != key_of(s[3].item));
        assert(key_of(s[1].item) != key_of(s[2].item));
        assert(key_of(s[1].item) != key_of(s[3].item));
        assert(key_of(s[2].item) != key_of(s[3].item));
    }
}

/// Whether `item` is strictly newer than every claim of the digest for its key.
pub fn offered_exec(remote: &Vec<DigestEntry>, item: &GossipItem) -> (r: bool)
    ensures
        r == offered(remote@, *item),
{
    let key = item.key();
    let mut i: usize = 0;
    while i < remote.len()
        invariant
            i <= remote@.len(),
            key == key_of(*item),
            forall|x: int|
                0 <= x < i && #[trigger] remote@[x].key == key ==> stamp_later(
                    item.wallclock,
                    item.version,
                    remote@[x].wallclock,
                    remote@[x].version,
                ),
        decreases remote@.len() - i,
    {
        let d = remote[i];
        if d.key == key && !(item.wallclock > d.wallclock || (item.wallclock == d.wallclock
            && item.version > d.version)) {
            return false;
        }
        i = i + 1;
    }
    true
}

/// A bounded store of gossip items, one per (origin, kind) key.
///
/// Items of other compatibility tags are never stored; entries owned by the
/// local node are never evicted to make room.
pub struct GossipTable {
    entries: Vec<Entry>,
    capacity: usize,
    self_id: u64,
    shred_version: u16,
    clock: u64,
}

impl View for GossipTable {
    type V = Map<GossipKey, Entry>;

    closed spec fn view(&self) -> Map<GossipKey, Entry> {
        entries_view(self.entries@)
    }
}

impl GossipTable {
    pub closed spec fn wf(&self) -> bool {
        &&& self.capacity > NUM_KINDS
        &&& self.entries@.len() <= self.capacity
        &&& keys_unique(self.entries@)
        &&& forall|i: int|
            0 <= i < self.entries@.len() ==> (#[trigger] self.entries@[i]).item.shred_version
                == self.shred_version
    }

    pub closed spec fn spec_len(&self) -> nat {
        self.entries@.len()
    }

    pub closed spec fn spec_capacity(&self) -> nat {
        self.capacity as nat
    }

    pub closed spec fn spec_self_id(&self) -> u64 {
        self.self_id
    }

    pub closed spec fn spec_shred_version(&self) -> u16 {
        self.shred_version
    }

    /// The tick stamped on the most recent write.
    pub closed spec fn spec_clock(&self) -> u64 {
        self.clock
    }

    /// Each held entry carries the key it is held under, and the table's tag.
    pub proof fn lemma_entry_key(&self, k: GossipKey)
        requires
            self.wf(),
            self@.contains_key(k),
        ensures
            key_of(self@[k].item) == k,
            self@[k].item.shred_version == self.spec_shred_version(),
    {
        let s = self.entries@;
        let i = choose|i: int| 0 <= i < s.len() && #[trigger] key_of(s[i].item) == k;
        lemma_view_at(s, i);
    }

    /// An empty table for the node `self_id` in the partition `shred_version`.
    ///
    /// The capacity must exceed the number of item kinds: the node's own
    /// entries, one per kind, are never evicted, and a full table must still
    /// hold an entry of another origin to make room for a new key.
    pub fn new(self_id: u64, shred_version: u16, capacity: usize) -> (r: GossipTable)
        requires
            capacity > NUM_KINDS,
        ensures
            r.wf(),
            r@ == Map::<GossipKey, Entry>::empty(),
            r.spec_len() == 0,
            r.spec_capacity() == capacity,
            r.spec_self_id() == self_id,
            r.spec_shred_version() == shred_version,
    {
        let r = GossipTable { entries: Vec::new(), capacity, self_id, shred_version, clock: 0 };
        assert(r@ =~= Map::<GossipKey, Entry>::empty());
        r
    }

    pub fn len(&self) -> (r: usize)
        ensures
            r == self.spec_len(),
    {
        self.entries.len()
    }

    pub fn capacity(&self) -> (r: usize)
        ensures
            r == self.spec_capacity(),
    {
        self.capacity
    }

    pub fn self_id(&self) -> (r: u64)
        ensures
            r == self.spec_self_id(),
    {
        self.self_id
    }

    pub fn shred_version(&self) -> (r: u16)
        ensures
            r == self.spec_shred_version(),
    {
        self.shred_version
    }

    fn find(&self, key: GossipKey) -> (r: Option<usize>)
        requires
            self.wf(),
        ensures
            match r {
                Some(i) => i < self.entries@.len() && key_of(self.entries@[i as int].item) == key,
                None => !has_key(self.entries@, key),
            },
            r is Some <==> self@.contains_key(key),
    {
        let mut i: usize = 0;
        while i < self.entries.len()
            invariant
                i <= self.entries@.len(),
                forall|j: int| 0 <= j < i ==> key_of(#[trigger] self.entries@[j].item) != key,
            decreases self.entries@.len() - i,
        {
            if self.entries[i].item.key() == key {
                return Some(i);
            }
            i = i + 1;
        }
        None
    }

    /// The item held for `key`, if any.
    pub fn get(&self, key: GossipKey) -> (r: Option<GossipItem>)
        requires
            self.wf(),
        ensures
            r == held(self@, key),
    {
        match self.find(key) {
            Some(i) => {
                proof {
                    lemma_view_at(self.entries@, i as int);
                }
                Some(self.entries[i].item)
            },
            None => None,
        }
    }

    /// Index of a least-recently-updated entry not owned by the local node.
    fn eviction_index(&self) -> (r: usize)
        requires
            self.wf(),
            self.entries@.len() > NUM_KINDS,
        ensures
            r < self.entries@.len(),
            self.entries@[r as int].item.origin != self.self_id,
            forall|i: int|
                0 <= i < self.entries@.len() && (#[trigger] self.entries@[i]).item.origin
                    != self.self_id ==> self.entries@[r as int].updated <= self.entries@[i].updated,
    {
        proof {
            lemma_foreign_entry_exists(self.entries@, self.self_id);
        }
        let mut best: Option<usize> = None;
        let mut i: usize = 0;
        while i < self.entries.len()
            invariant
                self.wf(),
                i <= self.entries@.len(),
                match best {
                    Some(b) => b < i && self.entries@[b as int].item.origin != self.self_id
                        && forall|j: int|
                        0 <= j < i && (#[trigger] self.entries@[j]).item.origin != self.self_id
                            ==> self.entries@[b as int].updated <= self.entries@[j].updated,
                    None => forall|j: int|
                        0 <= j < i ==> (#[trigger] self.entries@[j]).item.origin == self.self_id,
                },
            decreases self.entries@.len() - i,
        {
            let e = self.entries[i];
            if e.item.origin != self.self_id {
                match best {
                    Some(b) => {
                        if e.updated < self.entries[b].updated {
                            best = Some(i);
                        }
                    },
                    None => {
                        best = Some(i);
                    },
                }
            }
            i = i + 1;
        }
        match best {
            Some(b) => b,
            None => {
                proof {
                    let w = choose|w: int|
                        0 <= w < self.entries@.len() && #[trigger] self.entries@[w].item.origin
                            != self.self_id;
                    assert(self.entries@[w].item.origin == self.self_id);
                }
                0
            },
        }
    }

    /// The tick stamped on the most recent write.
    pub fn clock(&self) -> (r: u64)
        ensures
            r == self.spec_clock(),
    {
        self.clock
    }

    /// The items written after tick `since`, as a push round sends them.
    pub fn updated_since(&self, since: u64) -> (r: Vec<GossipItem>)
        requires
            self.wf(),
        ensures
            forall|j: int|
                0 <= j < r@.len() ==> self@.contains_key(key_of(#[trigger] r@[j]))
                    && self@[key_of(r@[j])].item == r@[j] && self@[key_of(r@[j])].updated > since,
            forall|k: GossipKey|
                #[trigger] self@.contains_key(k) && self@[k].updated > since ==> exists|j: int|
                    0 <= j < r@.len() && r@[j] == self@[k].item,
    {
        let mut r: Vec<GossipItem> = Vec::new();
        let mut i: usize = 0;
        let ghost s = self.entries@;
        while i < self.entries.len()
            invariant
                self.wf(),
                s == self.entries@,
                i <= s.len(),
                forall|j: int|
                    0 <= j < r@.len() ==> self@.contains_key(key_of(#[trigger] r@[j]))
                        && self@[key_of(r@[j])].item == r@[j] && self@[key_of(r@[j])].updated > since,
                forall|x: int|
                    0 <= x < i && (#[trigger] s[x]).updated > since ==> exists|j: int|
                        0 <= j < r@.len() && r@[j] == s[x].item,
            decreases s.len() - i,
        {
            let e = self.entries[i];
            let ghost prev = r@;
            proof {
                lemma_view_at(s, i as int);
            }
            if e.updated > since {
                r.push(e.item);
            }
            i = i + 1;
            proof {
                assert forall|x: int| 0 <= x < i && (#[trigger] s[x]).updated > since implies exists|j: int|
                    0 <= j < r@.len() && r@[j] == s[x].item by {
                    if x < i - 1 {
                        let j = choose|j: int| 0 <= j < prev.len() && prev[j] == s[x].item;
                        assert(r@[j] == prev[j]);
                    } else {
                        assert(r@[r@.len() - 1] == s[x].item);
                    }
                }
                assert forall|j: int| 0 <= j < r@.len() implies self@.contains_key(key_of(#[trigger] r@[j]))
                    && self@[key_of(r@[j])].item == r@[j] && self@[key_of(r@[j])].updated > since by {
                    if j < prev.len() {
                        assert(r@[j] == prev[j]);
                    }
                }
            }
        }
        proof {
            assert forall|k: GossipKey| #[trigger] self@.contains_key(k) && self@[k].updated > since
                implies exists|j: int| 0 <= j < r@.len() && r@[j] == self@[k].item by {
                let w = choose|w: int| 0 <= w < s.len() && #[trigger] key_of(s[w].item) == k;
                lemma_view_at(s, w);
            }
        }
        r
    }

    /// A summary of the table: the key and stamp of every entry, one per entry.
    pub fn digest(&self) -> (r: Vec<DigestEntry>)
        requires
            self.wf(),
        ensures
            is_digest_of(self@, self.spec_len(), r@),
    {
        let mut r: Vec<DigestEntry> = Vec::new();
        let mut i: usize = 0;
        while i < self.entries.len()
            invariant
                self.wf(),
                i <= self.entries@.len(),
                r@.len() == i,
                forall|j: int| 0 <= j < i ==> #[trigger] r@[j] == digest_of(self.entries@[j].item),
            decreases self.entries@.len() - i,
        {
            r.push(self.entries[i].item.digest_entry());
            i = i + 1;
        }
        proof {
            let s = self.entries@;
            assert(r@.len() == self.spec_len());
            assert forall|j: int| 0 <= j < r@.len() implies self@.contains_key(#[trigger] r@[j].key)
                && r@[j] == digest_of(self@[r@[j].key].item) by {
                lemma_view_at(s, j);
            }
            assert forall|k: GossipKey| #[trigger] self@.contains_key(k) implies exists|j: int|
                0 <= j < r@.len() && r@[j].key == k by {
                let w = choose|w: int| 0 <= w < s.len() && #[trigger] key_of(s[w].item) == k;
                assert(r@[w].key == k);
            }
        }
        r
    }

    /// The keys of the remote digest that this table is missing or holds an
    /// older stamp for, in digest order.
    pub fn wanted_keys(&self, remote: &Vec<DigestEntry>) -> (r: Vec<GossipKey>)
        requires
            self.wf(),
        ensures
            r@ == wanted_seq(self@, remote@),
    {
        let mut r: Vec<GossipKey> = Vec::new();
        let mut i: usize = 0;
        while i < remote.len()
            invariant
                self.wf(),
                i <= remote@.len(),
                r@ == wanted_seq(self@, remote@.subrange(0, i as int)),
            decreases remote@.len() - i,
        {
            let d = remote[i];
            let want = match self.find(d.key) {
                None => true,
                Some(p) => {
                    proof {
                        lemma_view_at(self.entries@, p as int);
                    }
                    d.is_newer_than(&self.entries[p].item)
                },
            };
            if want {
                r.push(d.key);
            }
            proof {
                assert(remote@.subrange(0, i + 1).drop_last() =~= remote@.subrange(0, i as int));
            }
            i = i + 1;
        }
        proof {
            assert(remote@.subrange(0, i as int) =~= remote@);
        }
        r
    }

    /// The local items strictly newer than what the remote digest claims for
    /// their key, including those whose key it does not list.
    pub fn offerable_items(&self, remote: &Vec<DigestEntry>) -> (r: Vec<GossipItem>)
        requires
            self.wf(),
        ensures
            forall|j: int|
                0 <= j < r@.len() ==> self@.contains_key(key_of(#[trigger] r@[j])) && self@[key_of(
                    r@[j],
                )].item == r@[j] && offered(remote@, r@[j]),
            forall|k: GossipKey|
                #[trigger] self@.contains_key(k) && offered(remote@, self@[k].item) ==> exists|j: int|
                    0 <= j < r@.len() && r@[j] == self@[k].item,
    {
        let mut r: Vec<GossipItem> = Vec::new();
        let mut i: usize = 0;
        let ghost s = self.entries@;
        while i < self.entries.len()
            invariant
                self.wf(),
                s == self.entries@,
                i <= s.len(),
                forall|j: int|
                    0 <= j < r@.len() ==> self@.contains_key(key_of(#[trigger] r@[j]))
                        && self@[key_of(r@[j])].item == r@[j] && offered(remote@, r@[j]),
                forall|x: int|
                    0 <= x < i && offered(remote@, (#[trigger] s[x]).item) ==> exists|j: int|
                        0 <= j < r@.len() && r@[j] == s[x].item,
            decreases s.len() - i,
        {
            let item = self.entries[i].item;
            let ghost prev = r@;
            proof {
                lemma_view_at(s, i as int);
            }
            if offered_exec(remote, &item) {
                r.push(item);
            }
            i = i + 1;
            proof {
                assert forall|x: int| 0 <= x < i && offered(remote@, (#[trigger] s[x]).item) implies exists|j: int|
                    0 <= j < r@.len() && r@[j] == s[x].item by {
                    if x < i - 1 {
                        let j = choose|j: int| 0 <= j < prev.len() && prev[j] == s[x].item;
                        assert(r@[j] == prev[j]);
                    } else {
                        assert(r@[r@.len() - 1] == s[x].item);
                    }
                }
                assert forall|j: int| 0 <= j < r@.len() implies self@.contains_key(key_of(#[trigger] r@[j]))
                    && self@[key_of(r@[j])].item == r@[j] && offered(remote@, r@[j]) by {
                    if j < prev.len() {
                        assert(r@[j] == prev[j]);
                    }
                }
            }
        }
        proof {
            assert forall|k: GossipKey| #[trigger] self@.contains_key(k) && offered(
                remote@,
                self@[k].item,
            ) implies exists|j: int| 0 <= j < r@.len() && r@[j] == self@[k].item by {
                let w = choose|w: int| 0 <= w < s.len() && #[trigger] key_of(s[w].item) == k;
                lemma_view_at(s, w);
            }
        }
        r
    }

    /// Reconciliation against a peer's digest: the keys to request from it and
    /// the items to send to it.
    pub fn diff_against(&self, remote: &Vec<DigestEntry>) -> (r: (Vec<GossipKey>, Vec<GossipItem>))
        requires
            self.wf(),
        ensures
            r.0@ == wanted_seq(self@, remote@),
            forall|j: int|
                0 <= j < r.1@.len() ==> self@.contains_key(key_of(#[trigger] r.1@[j]))
                    && self@[key_of(r.1@[j])].item == r.1@[j] && offered(remote@, r.1@[j]),
            forall|k: GossipKey|
                #[trigger] self@.contains_key(k) && offered(remote@, self@[k].item) ==> exists|j: int|
                    0 <= j < r.1@.len() && r.1@[j] == self@[k].item,
    {
        let wanted = self.wanted_keys(remote);
        let offer = self.offerable_items(remote);
        (wanted, offer)
    }

    /// The locally held items for the requested keys, in request order, as a
    /// pull response carries them.
    pub fn respond_to_pull(&self, requested: &Vec<GossipKey>) -> (r: Vec<GossipItem>)
        requires
            self.wf(),
        ensures
            r@ == pulled_seq(self@, requested@),
    {
        let mut r: Vec<GossipItem> = Vec::new();
        let mut i: usize = 0;
        while i < requested.len()
            invariant
                self.wf(),
                i <= requested@.len(),
                r@ == pulled_seq(self@, requested@.subrange(0, i as int)),
            decreases requested@.len() - i,
        {
            match self.get(requested[i]) {
                Some(item) => {
                    r.push(item);
                },
                None => {},
            }
            proof {
                assert(requested@.subrange(0, i + 1).drop_last() =~= requested@.subrange(0, i as int));
            }
            i = i + 1;
        }
        proof {
            assert(requested@.subrange(0, i as int) =~= requested@);
        }
        r
    }

    /// Offers each of `items` to the table in order; returns how many were accepted.
    ///
    /// When the table has room for all of them, nothing is evicted: each key
    /// then holds what merging its old item with the incoming items of that
    /// key gives, in order, and the count is that of the items that won.
    pub fn merge_all(&mut self, items: &Vec<GossipItem>) -> (r: usize)
        requires
            old(self).wf(),
        ensures
            final(self).wf(),
            final(self).spec_capacity() == old(self).spec_capacity(),
            final(self).spec_self_id() == old(self).spec_self_id(),
            final(self).spec_shred_version() == old(self).spec_shred_version(),
            r <= items@.len(),
            r == 0 ==> *final(self) == *old(self),
            forall|k: GossipKey|
                #[trigger] old(self)@.contains_key(k) && k.origin == old(self).spec_self_id() && (
                forall|i: int| 0 <= i < items@.len() ==> key_of(#[trigger] items@[i]) != k)
                    ==> final(self)@.contains_key(k) && final(self)@[k] == old(self)@[k],
            old(self).spec_len() + items@.len() <= old(self).spec_capacity() ==> r == accepted_count(
                old(self)@,
                items@,
                old(self).spec_shred_version(),
            ),
            old(self).spec_len() + items@.len() <= old(self).spec_capacity() ==> forall|k: GossipKey|
                #[trigger] held(final(self)@, k) == fold_merged(
                    held(old(self)@, k),
                    items@,
                    k,
                    old(self).spec_shred_version(),
                ),
    {
        let ghost start = *self;
        let ghost tag = self.shred_version;
        let ghost roomy = start.spec_len() + items@.len() <= start.spec_capacity();
        let mut n: usize = 0;
        let mut i: usize = 0;
        while i < items.len()
            invariant
                self.wf(),
                self.spec_capacity() == start.spec_capacity(),
                self.spec_self_id() == start.spec_self_id(),
                self.spec_shred_version() == start.spec_shred_version(),
                tag == start.spec_shred_version(),
                roomy == (start.spec_len() + items@.len() <= start.spec_capacity()),
                i <= items@.len(),
                n <= i,
                n == 0 ==> *self == start,
                self.spec_len() <= start.spec_len() + i,
                forall|k: GossipKey|
                    #[trigger] start@.contains_key(k) && k.origin == start.spec_self_id() && (
                    forall|x: int| 0 <= x < items@.len() ==> key_of(#[trigger] items@[x]) != k)
                        ==> self@.contains_key(k) && self@[k] == start@[k],
                roomy ==> n == accepted_count(start@, items@.subrange(0, i as int), tag),
                roomy ==> forall|k: GossipKey|
                    #[trigger] held(self@, k) == fold_merged(
                        held(start@, k),
                        items@.subrange(0, i as int),
                        k,
                        tag,
                    ),
            decreases items@.len() - i,
        {
            let ghost before = *self;
            let item = items[i];
            let out = self.upsert(item);
            if out == MergeOutcome::Accepted {
                n = n + 1;
            }
            proof {
                let pre = items@.subrange(0, i as int);
                let post = items@.subrange(0, i + 1);
                assert(post.drop_last() =~= pre);
                assert(post.last() == item);
                if roomy {
                    let kx = key_of(item);
                    assert(held(before@, kx) == fold_merged(held(start@, kx), pre, kx, tag));
                    assert forall|k: GossipKey| #[trigger] held(self@, k) == fold_merged(
                        held(start@, k),
                        post,
                        k,
                        tag,
                    ) by {
                        assert(held(before@, k) == fold_merged(held(start@, k), pre, k, tag));
                        if k != kx || item.shred_version != tag {
                            if out == MergeOutcome::Accepted {
                                assert(self@ == before@.insert(kx, self@[kx]));
                            }
                        }
                    }
                }
            }
            i = i + 1;
        }
        proof {
            assert(items@.subrange(0, i as int) =~= items@);
        }
        n
    }

    /// Offers `item` to the table.
    ///
    /// It is accepted when the table holds nothing for its key, or when it is
    /// strictly later in (wallclock, version) than what is held; an equal stamp
    /// leaves the table unchanged and an older one is rejected as stale. Items
    /// of another compatibility tag are rejected. A new key on a full table
    /// takes the place of the least-recently-updated entry of another origin.
    pub fn upsert(&mut self, item: GossipItem) -> (r: MergeOutcome)
        requires
            old(self).wf(),
        ensures
            final(self).wf(),
            final(self).spec_capacity() == old(self).spec_capacity(),
            final(self).spec_self_id() == old(self).spec_self_id(),
            final(self).spec_shred_version() == old(self).spec_shred_version(),
            r == outcome_of(old(self)@, item, old(self).spec_shred_version()),
            r != MergeOutcome::Accepted ==> *final(self) == *old(self),
            item.shred_version == old(self).spec_shred_version() ==> held(final(self)@, key_of(item))
                == Some(merged(held(old(self)@, key_of(item)), item)),
            r == MergeOutcome::Accepted ==> final(self).spec_clock() == (if old(self).spec_clock()
                < u64::MAX {
                (old(self).spec_clock() + 1) as u64
            } else {
                old(self).spec_clock()
            }) && final(self)@[key_of(item)] == (Entry { item, updated: final(self).spec_clock() }),
            final(self).spec_len() <= old(self).spec_len() + 1,
            r == MergeOutcome::Accepted && (old(self)@.contains_key(key_of(item))
                || old(self).spec_len() < old(self).spec_capacity()) ==> final(self)@ == old(
                self,
            )@.insert(key_of(item), final(self)@[key_of(item)]),
            r == MergeOutcome::Accepted && !old(self)@.contains_key(key_of(item)) && old(
                self,
            ).spec_len() == old(self).spec_capacity() ==> exists|ev: GossipKey|
                is_eviction_victim(old(self)@, ev, old(self).spec_self_id()) && final(self)@ == old(
                    self,
                )@.remove(ev).insert(key_of(item), final(self)@[key_of(item)]),
            final(self).spec_len() <= final(self).spec_capacity(),
            forall|k: GossipKey|
                #[trigger] old(self)@.contains_key(k) && k.origin == old(self).spec_self_id() && k
                    != key_of(item) ==> final(self)@.contains_key(k) && final(self)@[k] == old(
                    self,
                )@[k],
    {
        if item.shred_version != self.shred_version {
            return MergeOutcome::Rejected(RejectReason::Incompatible);
        }
        let key = item.key();
        let found = self.find(key);
        let ghost s = self.entries@;
        let tick: u64 = if self.clock < u64::MAX {
            self.clock + 1
        } else {
            self.clock
        };
        match found {
            Some(i) => {
                let cur = self.entries[i].item;
                proof {
                    lemma_view_at(s, i as int);
                }
                assert(old(self)@.contains_key(key));
                if item.is_newer_than(&cur) {
                    let e = Entry { item, updated: tick };
                    self.entries.set(i, e);
                    self.clock = tick;
                    proof {
                        lemma_view_update(s, i as int, e);
                        assert(entries_view(s).remove(key).insert(key, e) =~= entries_view(s).insert(key, e));
                    }
                    MergeOutcome::Accepted
                } else if item.wallclock == cur.wallclock && item.version == cur.version {
                    MergeOutcome::Unchanged
                } else {
                    MergeOutcome::Rejected(RejectReason::Stale)
                }
            },
            None => {
                let e = Entry { item, updated: tick };
                if self.entries.len() < self.capacity {
                    self.entries.push(e);
                    self.clock = tick;
                    proof {
                        lemma_view_push(s, e);
                        lemma_view_at(self.entries@, s.len() as int);
                    }
                } else {
                    let j = self.eviction_index();
                    let ghost ev = key_of(s[j as int].item);
                    proof {
                        lemma_view_at(s, j as int);
                        assert forall|k: GossipKey|
                            #[trigger] entries_view(s).contains_key(k) && k.origin != self.self_id
                                implies entries_view(s)[ev].updated <= entries_view(s)[k].updated by {
                            let w = choose|w: int| 0 <= w < s.len() && #[trigger] key_of(s[w].item) == k;
                            lemma_view_at(s, w);
                        }
                        assert forall|w: int| 0 <= w < s.len() && w != j implies key_of(
                            #[trigger] s[w].item,
                        ) != key by {
                            if key_of(s[w].item) == key {
                                assert(has_key(s, key));
                            }
                        }
                    }
                    self.entries.set(j, e);
                    self.clock = tick;
                    proof {
                        lemma_view_update(s, j as int, e);
                        assert(is_eviction_victim(entries_view(s), ev, self.self_id));
                    }
                }
                MergeOutcome::Accepted
            },
        }
    }
}

/// Is `x` among what a holder of `current` for key `k` was offered by `items`?
pub open spec fn candidate(
    current: Option<GossipItem>,
    items: Seq<GossipItem>,
    k: GossipKey,
    tag: u16,
    x: GossipItem,
) -> bool {
    current == Some(x) || exists|i: int|
        0 <= i < items.len() && #[trigger] items[i] == x && key_of(x) == k && x.shred_version == tag
}

proof fn lemma_fold_bounds(current: Option<GossipItem>, items: Seq<GossipItem>, k: GossipKey, tag: u16)
    ensures
        fold_merged(current, items, k, tag) matches Some(y) ==> candidate(current, items, k, tag, y),
        forall|x: GossipItem|
            #[trigger] candidate(current, items, k, tag, x) ==> (fold_merged(current, items, k, tag)
                matches Some(y) && !newer(x, y)),
    decreases items.len(),
{
    if items.len() > 0 {
        let pre = items.drop_last();
        lemma_fold_bounds(current, pre, k, tag);
        let last = items.last();
        let r = fold_merged(current, items, k, tag);
        if let Some(y) = r {
            if key_of(last) == k && last.shred_version == tag && y == last {
                assert(items[items.len() - 1] == y);
            } else if fold_merged(current, pre, k, tag) is Some && y == fold_merged(current, pre, k, tag)->Some_0 {
                if current != Some(y) {
                    let i = choose|i: int|
                        0 <= i < pre.len() && #[trigger] pre[i] == y && key_of(y) == k && y.shred_version == tag;
                    assert(items[i] == y);
                }
            }
        }
        assert forall|x: GossipItem| #[trigger] candidate(current, items, k, tag, x) implies (fold_merged(
            current,
            items,
            k,
            tag,
        ) matches Some(y) && !newer(x, y)) by {
            if current != Some(x) {
                let i = choose|i: int|
                    0 <= i < items.len() && #[trigger] items[i] == x && key_of(x) == k && x.shred_version == tag;
                if i < items.len() - 1 {
                    assert(pre[i] == x);
                    assert(candidate(current, pre, k, tag, x));
                }
            } else {
                assert(candidate(current, pre, k, tag, x));
            }
        }
    }
}

/// Convergence: two holders of a key that have been offered the same
/// candidate items, each starting from its own entry, end up holding the same
/// item, provided the owner never issued two different items under one stamp.
pub proof fn lemma_fold_converges(
    c1: Option<GossipItem>,
    s1: Seq<GossipItem>,
    c2: Option<GossipItem>,
    s2: Seq<GossipItem>,
    k: GossipKey,
    tag: u16,
)
    requires
        forall|x: GossipItem| #[trigger]
            candidate(c1, s1, k, tag, x) == candidate(c2, s2, k, tag, x),
        forall|x: GossipItem, y: GossipItem|
            candidate(c1, s1, k, tag, x) && candidate(c1, s1, k, tag, y) && same_stamp(x, y) ==> x == y,
    ensures
        fold_merged(c1, s1, k, tag) == fold_merged(c2, s2, k, tag),
{
    lemma_fold_bounds(c1, s1, k, tag);
    lemma_fold_bounds(c2, s2, k, tag);
    let r1 = fold_merged(c1, s1, k, tag);
    let r2 = fold_merged(c2, s2, k, tag);
    if let Some(y1) = r1 {
        assert(candidate(c1, s1, k, tag, y1));
        assert(candidate(c2, s2, k, tag, y1));
        assert(r2 is Some);
        let y2 = r2->Some_0;
        assert(candidate(c2, s2, k, tag, y2));
        assert(candidate(c1, s1, k, tag, y2));
        assert(!newer(y1, y2));
        assert(!newer(y2, y1));
        assert(same_stamp(y1, y2));
        assert(y1 == y2);
    } else if let Some(y2) = r2 {
        assert(candidate(c1, s1, k, tag, y2));
    }
}

/// Offering an item that was already accepted once leaves the table unchanged.
pub proof fn lemma_reapply_unchanged(m: Map<GossipKey, Entry>, item: GossipItem, tag: u16)
    requires
        item.shred_version == tag,
        m.contains_key(key_of(item)),
        m[key_of(item)].item == item,
    ensures
        outcome_of(m, item, tag) == MergeOutcome::Unchanged,
{
}

/// An item with a strictly older stamp than the stored entry is never accepted,
/// so it never changes the table.
pub proof fn lemma_older_never_accepted(m: Map<GossipKey, Entry>, item: GossipItem, tag: u16)
    requires
        m.contains_key(key_of(item)),
        newer(m[key_of(item)].item, item),
    ensures
        outcome_of(m, item, tag) != MergeOutcome::Accepted,
        item.shred_version == tag ==> outcome_of(m, item, tag) == MergeOutcome::Rejected(
            RejectReason::Stale,
        ),
{
}

/// Two tables that both hold an entry for a key hold the same item for it
/// after each has been offered the other's, provided the owner never issued
/// two different items under one stamp.
pub proof fn lemma_tables_converge(m1: Map<GossipKey, Entry>, m2: Map<GossipKey, Entry>, k: GossipKey)
    requires
        m1.contains_key(k),
        m2.contains_key(k),
        key_of(m1[k].item) == k,
        key_of(m2[k].item) == k,
        same_stamp(m1[k].item, m2[k].item) ==> m1[k].item == m2[k].item,
    ensures
        merged(held(m1, k), m2[k].item) == merged(held(m2, k), m1[k].item),
{
    crate::record::lemma_exchange_converges(m1[k].item, m2[k].item);
}

} // verus!
