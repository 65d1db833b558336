use vstd::prelude::*;

verus! {

/// Number of distinct gossip item kinds a node can originate.
pub const NUM_KINDS: usize = 3;

/// A network address: IPv4 address as a 32-bit integer and a port.
#[derive(Clone, Copy, Debug, PartialEq, Eq, Structural)]
pub struct SocketAddress {
    pub ip: u32,
    pub port: u16,
}

/// The kind of a gossip item; together with the origin it keys the table.
#[derive(Clone, Copy, Debug, PartialEq, Eq, Structural)]
pub enum ItemKind {
    Contact,
    Heartbeat,
    Vote,
}

/// What a gossip item carries, one variant per kind.
#[derive(Clone, Copy, Debug, PartialEq, Eq, Structural)]
pub enum Payload {
    /// The owner's service endpoints: service name to socket address.
    Contact { gossip: SocketAddress, tvu: SocketAddress, tpu: SocketAddress, rpc: SocketAddress },
    /// A liveness signal with the owner's instance token.
    Heartbeat { token: u64 },
    /// A vote-adjacent signal naming a slot.
    Vote { slot: u64 },
}

/// Table key of an item: who produced it and what it is.
#[derive(Clone, Copy, Debug, PartialEq, Eq, Structural)]
pub struct GossipKey {
    pub origin: u64,
    pub kind: ItemKind,
}

/// A versioned, owner-produced gossip item.
#[derive(Clone, Copy, Debug, PartialEq, Eq, Structural)]
pub struct GossipItem {
    pub origin: u64,
    pub shred_version: u16,
    pub wallclock: u64,
    pub version: u64,
    pub payload: Payload,
}

/// The version stamp of one table entry, as sent in a digest.
#[derive(Clone, Copy, Debug, PartialEq, Eq, Structural)]
pub struct DigestEntry {
    pub key: GossipKey,
    pub wallclock: u64,
    pub version: u64,
}

/// Why an incoming item was not stored.
#[derive(Clone, Copy, Debug, PartialEq, Eq, Structural)]
pub enum RejectReason {
    /// The stored entry is strictly newer.
    Stale,
    /// The item carries another compatibility tag than the table.
    Incompatible,
}

/// Result of offering an item to the table.
#[derive(Clone, Copy, Debug, PartialEq, Eq, Structural)]
pub enum MergeOutcome {
    Accepted,
    Rejected(RejectReason),
    Unchanged,
}

pub open spec fn kind_of(p: Payload) -> ItemKind {
    match p {
        Payload::Contact { .. } => ItemKind::Contact,
        Payload::Heartbeat { .. } => ItemKind::Heartbeat,
        Payload::Vote { .. } => ItemKind::Vote,
    }
}

pub open spec fn key_of(item: GossipItem) -> GossipKey {
    GossipKey { origin: item.origin, kind: kind_of(item.payload) }
}

/// Strict (wallclock, version) order: is the stamp (w1, v1) later than (w2, v2)?
pub open spec fn stamp_later(w1: u64, v1: u64, w2: u64, v2: u64) -> bool {
    w1 > w2 || (w1 == w2 && v1 > v2)
}

/// Does item `a` strictly win over item `b` on merge?
pub open spec fn newer(a: GossipItem, b: GossipItem) -> bool {
    stamp_later(a.wallclock, a.version, b.wallclock, b.version)
}

/// Do the two items carry the same (wallclock, version) stamp?
pub open spec fn same_stamp(a: GossipItem, b: GossipItem) -> bool {
    a.wallclock == b.wallclock && a.version == b.version
}

/// The item kept when `incoming` meets the locally held `current`: the later
/// one, and the local one on a tie.
pub open spec fn winner(current: GossipItem, incoming: GossipItem) -> GossipItem {
    if newer(incoming, current) {
        incoming
    } else {
        current
    }
}

/// What is held for a key after offering `incoming` to a holder of `current`.
pub open spec fn merged(current: Option<GossipItem>, incoming: GossipItem) -> GossipItem {
    match current {
        Some(c) => winner(c, incoming),
        None => incoming,
    }
}

pub open spec fn digest_of(item: GossipItem) -> DigestEntry {
    DigestEntry { key: key_of(item), wallclock: item.wallclock, version: item.version }
}

impl Payload {
    pub fn kind(&self) -> (r: ItemKind)
        ensures
            r == kind_of(*self),
    {
        match self {
            Payload::Contact { .. } => ItemKind::Contact,
            Payload::Heartbeat { .. } => ItemKind::Heartbeat,
            Payload::Vote { .. } => ItemKind::Vote,
        }
    }
}

impl GossipItem {
    pub fn key(&self) -> (r: GossipKey)
        ensures
            r == key_of(*self),
    {
        GossipKey { origin: self.origin, kind: self.payload.kind() }
    }

    /// Whether this item strictly wins over `other` under the (wallclock, version) order.
    pub fn is_newer_than(&self, other: &GossipItem) -> (r: bool)
        ensures
            r == newer(*self, *other),
    {
        self.wallclock > other.wallclock || (self.wallclock == other.wallclock && self.version
            > other.version)
    }

    pub fn digest_entry(&self) -> (r: DigestEntry)
        ensures
            r == digest_of(*self),
    {
        DigestEntry { key: self.key(), wallclock: self.wallclock, version: self.version }
    }
}

impl DigestEntry {
    /// Whether this digest's stamp is strictly later than the item's.
    pub fn is_newer_than(&self, item: &GossipItem) -> (r: bool)
        ensures
            r == stamp_later(self.wallclock, self.version, item.wallclock, item.version),
    {
        self.wallclock > item.wallclock || (self.wallclock == item.wallclock && self.version
            > item.version)
    }
}

/// Merging is symmetric: when two holders exchange their items for one key,
/// both end up holding the same item, provided the owner never issued two
/// different items under one stamp.
pub proof fn lemma_exchange_converges(a: GossipItem, b: GossipItem)
    requires
        key_of(a) == key_of(b),
        same_stamp(a, b) ==> a == b,
    ensures
        winner(a, b) == winner(b, a),
{
}

/// The merged item never has an older stamp than either input.
pub proof fn lemma_merge_monotone(current: GossipItem, incoming: GossipItem)
    ensures
        !newer(current, winner(current, incoming)),
        !newer(incoming, winner(current, incoming)),
{
}

} // verus!
