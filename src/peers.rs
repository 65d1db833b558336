use vstd::prelude::*;

use crate::record::SocketAddress;

verus! {

/// Staleness beyond this many milliseconds adds no further selection weight.
pub const MAX_STALENESS_WEIGHT: u64 = 60_000;

/// Liveness bookkeeping for one known peer.
#[derive(Clone, Copy, Debug, PartialEq, Eq, Structural)]
pub struct PeerView {
    pub id: u64,
    pub addr: SocketAddress,
    pub shred_version: u16,
    /// Wallclock of the last successful exchange.
    pub last_contact: u64,
    /// Round-trip estimate of the last successful exchange, in milliseconds.
    pub rtt_ms: u64,
    /// Rounds in a row in which contact with the peer failed.
    pub failures: u32,
}

/// What became of a peer that was seen on the network.
#[derive(Clone, Copy, Debug, PartialEq, Eq, Structural)]
pub enum Admission {
    Added,
    Known,
    /// The peer is in another partition.
    Incompatible,
    /// The peer is the local node itself.
    IsSelf,
}

pub open spec fn is_active(p: PeerView, threshold: u32) -> bool {
    p.failures < threshold
}

/// Is `id` a known peer that is still a gossip target?
pub open spec fn is_target_in(s: Seq<PeerView>, threshold: u32, id: u64) -> bool {
    exists|i: int| 0 <= i < s.len() && #[trigger] s[i].id == id && is_active(s[i], threshold)
}

pub open spec fn has_peer(s: Seq<PeerView>, id: u64) -> bool {
    exists|i: int| 0 <= i < s.len() && #[trigger] s[i].id == id
}

/// The ids of the peers that are gossip targets, in table order.
pub open spec fn active_ids(s: Seq<PeerView>, threshold: u32) -> Seq<u64>
    decreases s.len(),
{
    if s.len() == 0 {
        Seq::empty()
    } else {
        let prefix = active_ids(s.drop_last(), threshold);
        if is_active(s.last(), threshold) {
            prefix.push(s.last().id)
        } else {
            prefix
        }
    }
}

/// The selection weights of the gossip targets at time `now`, in the order
/// of `active_ids`.
pub open spec fn active_weights(s: Seq<PeerView>, threshold: u32, now: u64) -> Seq<u64>
    decreases s.len(),
{
    if s.len() == 0 {
        Seq::empty()
    } else {
        let prefix = active_weights(s.drop_last(), threshold, now);
        if is_active(s.last(), threshold) {
            prefix.push(staleness_weight(s.last(), now))
        } else {
            prefix
        }
    }
}

/// The index a weighted draw picks: the one whose cumulative weight range
/// holds `draw` modulo the total weight.
pub open spec fn weighted_index(w: Seq<u64>, draw: u64) -> int {
    choose|i: int|
        0 <= i < w.len() && #[trigger] prefix_sum(w, i) <= (draw as int) % prefix_sum(w, w.len() as int)
            < prefix_sum(w, i + 1)
}

/// The targets that `draws` select among `cand` with weights `w`: each draw
/// adds its pick unless already chosen, until `fanout` are chosen.
pub open spec fn selection(cand: Seq<u64>, w: Seq<u64>, draws: Seq<u64>, fanout: nat) -> Seq<u64>
    decreases draws.len(),
{
    if draws.len() == 0 {
        Seq::empty()
    } else {
        let prev = selection(cand, w, draws.drop_last(), fanout);
        let id = cand[weighted_index(w, draws.last())];
        if prev.len() >= fanout || prev.contains(id) {
            prev
        } else {
            prev.push(id)
        }
    }
}

/// Selection weight of a peer at time `now`: one plus its capped staleness.
pub open spec fn staleness_weight(p: PeerView, now: u64) -> u64 {
    if now <= p.last_contact {
        1
    } else if now - p.last_contact >= MAX_STALENESS_WEIGHT {
        (MAX_STALENESS_WEIGHT + 1) as u64
    } else {
        (now - p.last_contact + 1) as u64
    }
}

pub open spec fn prefix_sum(w: Seq<u64>, n: int) -> int
    decreases n,
{
    if n <= 0 {
        0
    } else {
        prefix_sum(w, n - 1) + w[n - 1]
    }
}

proof fn lemma_prefix_sum_bounds(w: Seq<u64>, n: int)
    requires
        0 <= n <= w.len(),
    ensures
        0 <= prefix_sum(w, n) <= n * 0xffff_ffff_ffff_ffff,
    decreases n,
{
    if n > 0 {
        lemma_prefix_sum_bounds(w, n - 1);
    }
}

proof fn lemma_prefix_sum_monotone(w: Seq<u64>, a: int, b: int)
    requires
        0 <= a <= b <= w.len(),
    ensures
        prefix_sum(w, a) <= prefix_sum(w, b),
    decreases b - a,
{
    if a < b {
        lemma_prefix_sum_monotone(w, a, b - 1);
    }
}

proof fn lemma_weighted_index_unique(w: Seq<u64>, draw: u64, r: int)
    requires
        0 <= r < w.len(),
        prefix_sum(w, r) <= (draw as int) % prefix_sum(w, w.len() as int) < prefix_sum(w, r + 1),
    ensures
        weighted_index(w, draw) == r,
{
    let i = weighted_index(w, draw);
    if i < r {
        lemma_prefix_sum_monotone(w, i + 1, r);
    } else if r < i {
        lemma_prefix_sum_monotone(w, r + 1, i);
    }
}

proof fn lemma_active_ids_members(s: Seq<PeerView>, threshold: u32, j: int)
    requires
        0 <= j < active_ids(s, threshold).len(),
    ensures
        exists|i: int|
            0 <= i < s.len() && #[trigger] s[i].id == active_ids(s, threshold)[j] && is_active(
                s[i],
                threshold,
            ),
    decreases s.len(),
{
    let prefix = active_ids(s.drop_last(), threshold);
    if j < prefix.len() {
        lemma_active_ids_members(s.drop_last(), threshold, j);
        let i = choose|i: int|
            0 <= i < s.drop_last().len() && #[trigger] s.drop_last()[i].id == prefix[j]
                && is_active(s.drop_last()[i], threshold);
        assert(s[i] == s.drop_last()[i]);
    } else {
        assert(s[s.len() - 1].id == active_ids(s, threshold)[j]);
    }
}

/// Index chosen by a weighted draw: the `i` whose cumulative weight range
/// holds `draw` modulo the total weight.
pub fn pick_weighted(weights: &Vec<u64>, draw: u64) -> (r: usize)
    requires
        weights@.len() > 0,
        forall|i: int| 0 <= i < weights@.len() ==> #[trigger] weights@[i] >= 1,
    ensures
        r < weights@.len(),
        prefix_sum(weights@, r as int) <= (draw as int) % prefix_sum(weights@, weights@.len() as int)
            < prefix_sum(weights@, r + 1),
        r == weighted_index(weights@, draw),
{
    let mut total: u128 = 0;
    let mut i: usize = 0;
    while i < weights.len()
        invariant
            i <= weights@.len(),
            forall|k: int| 0 <= k < weights@.len() ==> #[trigger] weights@[k] >= 1,
            total == prefix_sum(weights@, i as int),
            i > 0 ==> total >= 1,
        decreases weights@.len() - i,
    {
        proof {
            lemma_prefix_sum_bounds(weights@, i + 1);
            assert((i + 1) * 0xffff_ffff_ffff_ffff <= 0xffff_ffff_ffff_ffff_ffff_ffff_ffff_ffff)
                by (nonlinear_arith)
                requires
                    i < 0x1_0000_0000_0000_0000,
            ;
        }
        assert(weights@[i as int] >= 1);
        total = total + weights[i] as u128;
        i = i + 1;
    }
    let target: u128 = (draw as u128) % total;
    let mut acc: u128 = 0;
    let mut j: usize = 0;
    while j < weights.len()
        invariant
            j <= weights@.len(),
            total == prefix_sum(weights@, weights@.len() as int),
            total >= 1,
            target == (draw as int) % (total as int),
            acc == prefix_sum(weights@, j as int),
            acc <= target,
        decreases weights@.len() - j,
    {
        proof {
            lemma_prefix_sum_bounds(weights@, j + 1);
            assert((j + 1) * 0xffff_ffff_ffff_ffff <= 0xffff_ffff_ffff_ffff_ffff_ffff_ffff_ffff)
                by (nonlinear_arith)
                requires
                    j < 0x1_0000_0000_0000_0000,
            ;
        }
        let next: u128 = acc + weights[j] as u128;
        if target < next {
            proof {
                lemma_weighted_index_unique(weights@, draw, j as int);
            }
            return j;
        }
        acc = next;
        j = j + 1;
    }
    proof {
        assert(false);
    }
    0
}

fn weight_of(p: &PeerView, now: u64) -> (r: u64)
    ensures
        r == staleness_weight(*p, now),
        r >= 1,
{
    if now <= p.last_contact {
        1
    } else if now - p.last_contact >= MAX_STALENESS_WEIGHT {
        MAX_STALENESS_WEIGHT + 1
    } else {
        now - p.last_contact + 1
    }
}

fn contains_id(v: &Vec<u64>, x: u64) -> (r: bool)
    ensures
        r == v@.contains(x),
{
    let mut i: usize = 0;
    while i < v.len()
        invariant
            i <= v@.len(),
            forall|j: int| 0 <= j < i ==> v@[j] != x,
        decreases v@.len() - i,
    {
        if v[i] == x {
            assert(v@[i as int] == x);
            return true;
        }
        i = i + 1;
    }
    false
}

/// The peers this node gossips with, each with its liveness record.
///
/// Peers of another compatibility tag, and the node itself, are never admitted.
pub struct PeerSet {
    peers: Vec<PeerView>,
    self_id: u64,
    shred_version: u16,
    threshold: u32,
}

impl PeerSet {
    pub closed spec fn wf(&self) -> bool {
        &&& self.threshold > 0
        &&& forall|i: int, j: int|
            0 <= i < self.peers@.len() && 0 <= j < self.peers@.len() && i != j ==> (
            #[trigger] self.peers@[i]).id != (#[trigger] self.peers@[j]).id
        &&& forall|i: int|
            0 <= i < self.peers@.len() ==> (#[trigger] self.peers@[i]).shred_version
                == self.shred_version && self.peers@[i].id != self.self_id
    }

    pub closed spec fn spec_peers(&self) -> Seq<PeerView> {
        self.peers@
    }

    pub closed spec fn spec_self_id(&self) -> u64 {
        self.self_id
    }

    pub closed spec fn spec_shred_version(&self) -> u16 {
        self.shred_version
    }

    /// Consecutive failed rounds after which a peer stops being a target.
    pub closed spec fn spec_threshold(&self) -> u32 {
        self.threshold
    }

    /// Every admitted peer shares the local compatibility tag and is not the
    /// local node, so no node of another partition is ever a gossip target.
    pub proof fn lemma_partition_isolation(&self, i: int)
        requires
            self.wf(),
            0 <= i < self.spec_peers().len(),
        ensures
            self.spec_peers()[i].shred_version == self.spec_shred_version(),
            self.spec_peers()[i].id != self.spec_self_id(),
    {
    }

    /// No two admitted peers share an id.
    pub proof fn lemma_ids_unique(&self, i: int, j: int)
        requires
            self.wf(),
            0 <= i < self.spec_peers().len(),
            0 <= j < self.spec_peers().len(),
            i != j,
        ensures
            self.spec_peers()[i].id != self.spec_peers()[j].id,
    {
    }

    /// A peer whose failures reached the threshold is not a gossip target.
    pub proof fn lemma_failed_peer_excluded(&self, i: int)
        requires
            self.wf(),
            0 <= i < self.spec_peers().len(),
            self.spec_peers()[i].failures >= self.spec_threshold(),
        ensures
            !is_target_in(self.spec_peers(), self.spec_threshold(), self.spec_peers()[i].id),
    {
        assert forall|j: int|
            0 <= j < self.peers@.len() && #[trigger] self.peers@[j].id == self.peers@[i].id implies !is_active(
            self.peers@[j],
            self.threshold,
        ) by {
            if j != i {
                assert(self.peers@[j].id != self.peers@[i].id);
            }
        }
    }

    /// Any gossip target carries the local compatibility tag.
    pub proof fn lemma_target_shares_tag(&self, id: u64)
        requires
            self.wf(),
            is_target_in(self.spec_peers(), self.spec_threshold(), id),
        ensures
            exists|i: int|
                0 <= i < self.spec_peers().len() && #[trigger] self.spec_peers()[i].id == id
                    && self.spec_peers()[i].shred_version == self.spec_shred_version(),
    {
        let i = choose|i: int|
            0 <= i < self.peers@.len() && #[trigger] self.peers@[i].id == id && is_active(
                self.peers@[i],
                self.threshold,
            );
        assert(self.spec_peers()[i].id == id);
    }

    pub fn new(self_id: u64, shred_version: u16, threshold: u32) -> (r: PeerSet)
        requires
            threshold > 0,
        ensures
            r.wf(),
            r.spec_peers() == Seq::<PeerView>::empty(),
            r.spec_self_id() == self_id,
            r.spec_shred_version() == shred_version,
            r.spec_threshold() == threshold,
    {
        PeerSet { peers: Vec::new(), self_id, shred_version, threshold }
    }

    pub fn len(&self) -> (r: usize)
        ensures
            r == self.spec_peers().len(),
    {
        self.peers.len()
    }

    fn find(&self, id: u64) -> (r: Option<usize>)
        ensures
            match r {
                Some(i) => i < self.peers@.len() && self.peers@[i as int].id == id,
                None => !has_peer(self.peers@, id),
            },
    {
        let mut i: usize = 0;
        while i < self.peers.len()
            invariant
                i <= self.peers@.len(),
                forall|j: int| 0 <= j < i ==> (#[trigger] self.peers@[j]).id != id,
            decreases self.peers@.len() - i,
        {
            if self.peers[i].id == id {
                return Some(i);
            }
            i = i + 1;
        }
        None
    }

    /// The record of peer `id`, if it is known.
    pub fn get(&self, id: u64) -> (r: Option<PeerView>)
        requires
            self.wf(),
        ensures
            r is None <==> !has_peer(self.spec_peers(), id),
            r matches Some(p) ==> p.id == id && self.spec_peers().contains(p),
    {
        match self.find(id) {
            Some(i) => Some(self.peers[i]),
            None => None,
        }
    }

    /// Admits a peer on first contact at time `now`, unless it is the local
    /// node, belongs to another partition, or is already known.
    pub fn observe(&mut self, id: u64, addr: SocketAddress, shred_version: u16, now: u64) -> (r:
        Admission)
        requires
            old(self).wf(),
        ensures
            final(self).wf(),
            final(self).spec_self_id() == old(self).spec_self_id(),
            final(self).spec_shred_version() == old(self).spec_shred_version(),
            final(self).spec_threshold() == old(self).spec_threshold(),
            r == (if id == old(self).spec_self_id() {
                Admission::IsSelf
            } else if shred_version != old(self).spec_shred_version() {
                Admission::Incompatible
            } else if has_peer(old(self).spec_peers(), id) {
                Admission::Known
            } else {
                Admission::Added
            }),
            r == Admission::Added ==> final(self).spec_peers() == old(self).spec_peers().push(
                (PeerView { id, addr, shred_version, last_contact: now, rtt_ms: 0, failures: 0 }),
            ),
            r != Admission::Added ==> *final(self) == *old(self),
    {
        if id == self.self_id {
            return Admission::IsSelf;
        }
        if shred_version != self.shred_version {
            return Admission::Incompatible;
        }
        match self.find(id) {
            Some(_) => Admission::Known,
            None => {
                let p = PeerView { id, addr, shred_version, last_contact: now, rtt_ms: 0, failures: 0 };
                self.peers.push(p);
                proof {
                    assert forall|i: int| 0 <= i < old(self).peers@.len() implies (
                    #[trigger] self.peers@[i]).id != id by {
                        assert(self.peers@[i] == old(self).peers@[i]);
                    }
                }
                Admission::Added
            },
        }
    }

    /// Records a successful exchange with peer `id`: its failure count is
    /// cleared, its last contact and round-trip estimate are set. Returns
    /// whether the peer is known.
    pub fn record_success(&mut self, id: u64, now: u64, rtt_ms: u64) -> (r: bool)
        requires
            old(self).wf(),
        ensures
            final(self).wf(),
            final(self).spec_self_id() == old(self).spec_self_id(),
            final(self).spec_shred_version() == old(self).spec_shred_version(),
            final(self).spec_threshold() == old(self).spec_threshold(),
            r == has_peer(old(self).spec_peers(), id),
            !r ==> *final(self) == *old(self),
            r ==> exists|i: int|
                0 <= i < old(self).spec_peers().len() && old(self).spec_peers()[i].id == id
                    && final(self).spec_peers() == old(self).spec_peers().update(
                    i,
                    (PeerView { last_contact: now, rtt_ms, failures: 0, ..old(self).spec_peers()[i] }),
                ),
    {
        match self.find(id) {
            Some(i) => {
                let p = self.peers[i];
                let q = PeerView { last_contact: now, rtt_ms, failures: 0, ..p };
                self.peers.set(i, q);
                proof {
                    let op = old(self).spec_peers()[i as int];
                    assert(q == (PeerView { last_contact: now, rtt_ms, failures: 0, ..op }));
                    assert(self.spec_peers() == old(self).spec_peers().update(i as int, q));
                }
                true
            },
            None => false,
        }
    }

    /// Records a round in which contact with peer `id` failed. Returns whether
    /// the peer is known.
    pub fn record_failure(&mut self, id: u64) -> (r: bool)
        requires
            old(self).wf(),
        ensures
            final(self).wf(),
            final(self).spec_self_id() == old(self).spec_self_id(),
            final(self).spec_shred_version() == old(self).spec_shred_version(),
            final(self).spec_threshold() == old(self).spec_threshold(),
            r == has_peer(old(self).spec_peers(), id),
            !r ==> *final(self) == *old(self),
            forall|i: int|
                0 <= i < final(self).spec_peers().len() && #[trigger] final(self).spec_peers()[i].id
                    == id ==> (is_target_in(final(self).spec_peers(), final(self).spec_threshold(), id)
                    <==> final(self).spec_peers()[i].failures < final(self).spec_threshold()),
            r ==> exists|i: int|
                0 <= i < old(self).spec_peers().len() && old(self).spec_peers()[i].id == id
                    && final(self).spec_peers() == old(self).spec_peers().update(
                    i,
                    (PeerView {
                        failures: if old(self).spec_peers()[i].failures == u32::MAX {
                            u32::MAX
                        } else {
                            (old(self).spec_peers()[i].failures + 1) as u32
                        },
                        ..old(self).spec_peers()[i]
                    }),
                ),
    {
        match self.find(id) {
            Some(i) => {
                let p = self.peers[i];
                let failures = if p.failures == u32::MAX {
                    u32::MAX
                } else {
                    p.failures + 1
                };
                let q = PeerView { failures, ..p };
                self.peers.set(i, q);
                proof {
                    assert(self.spec_peers() == old(self).spec_peers().update(i as int, q));
                    assert forall|j: int|
                        0 <= j < self.peers@.len() && #[trigger] self.peers@[j].id == id implies j
                        == i by {
                        if j != i {
                            assert(self.peers@[j].id != self.peers@[i as int].id);
                        }
                    }
                    if q.failures < self.threshold {
                        assert(self.peers@[i as int].id == id);
                    }
                }
                true
            },
            None => false,
        }
    }

    /// Whether peer `id` is known and still a gossip target.
    pub fn is_target(&self, id: u64) -> (r: bool)
        requires
            self.wf(),
        ensures
            r == is_target_in(self.spec_peers(), self.spec_threshold(), id),
    {
        match self.find(id) {
            Some(i) => {
                proof {
                    assert forall|j: int|
                        0 <= j < self.peers@.len() && #[trigger] self.peers@[j].id == id implies j
                        == i by {
                        if j != i {
                            assert(self.peers@[j].id != self.peers@[i as int].id);
                        }
                    }
                    assert(self.spec_peers()[i as int].id == id);
                }
                self.peers[i].failures < self.threshold
            },
            None => false,
        }
    }

    /// Up to `fanout` distinct gossip targets for one round. Each draw picks a
    /// target among the active peers with probability proportional to its
    /// staleness weight at time `now`; a draw that repeats a pick adds nothing.
    pub fn select_targets(&self, now: u64, fanout: usize, draws: &Vec<u64>) -> (r: Vec<u64>)
        requires
            self.wf(),
        ensures
            r@.len() <= fanout,
            r@.no_duplicates(),
            forall|j: int|
                0 <= j < r@.len() ==> is_target_in(self.spec_peers(), self.spec_threshold(), #[trigger] r@[j]),
            fanout > 0 && draws@.len() > 0 && active_ids(self.spec_peers(), self.spec_threshold()).len()
                > 0 ==> r@.len() > 0,
            active_ids(self.spec_peers(), self.spec_threshold()).len() == 0 ==> r@.len() == 0,
            active_ids(self.spec_peers(), self.spec_threshold()).len() > 0 ==> r@ == selection(
                active_ids(self.spec_peers(), self.spec_threshold()),
                active_weights(self.spec_peers(), self.spec_threshold(), now),
                draws@,
                fanout as nat,
            ),
    {
        let mut cand: Vec<u64> = Vec::new();
        let mut weights: Vec<u64> = Vec::new();
        let mut i: usize = 0;
        while i < self.peers.len()
            invariant
                i <= self.peers@.len(),
                cand@ == active_ids(self.peers@.subrange(0, i as int), self.threshold),
                weights@ == active_weights(self.peers@.subrange(0, i as int), self.threshold, now),
                weights@.len() == cand@.len(),
                forall|k: int| 0 <= k < weights@.len() ==> #[trigger] weights@[k] >= 1,
            decreases self.peers@.len() - i,
        {
            if self.peers[i].failures < self.threshold {
                cand.push(self.peers[i].id);
                let w = weight_of(&self.peers[i], now);
                weights.push(w);
            }
            proof {
                assert(self.peers@.subrange(0, i + 1).drop_last() =~= self.peers@.subrange(0, i as int));
            }
            i = i + 1;
        }
        proof {
            assert(self.peers@.subrange(0, i as int) =~= self.peers@);
        }
        let mut r: Vec<u64> = Vec::new();
        if cand.len() == 0 {
            return r;
        }
        let mut d: usize = 0;
        while d < draws.len()
            invariant
                cand@ == active_ids(self.peers@, self.threshold),
                weights@ == active_weights(self.peers@, self.threshold, now),
                r@ == selection(cand@, weights@, draws@.subrange(0, d as int), fanout as nat),
                cand@.len() > 0,
                weights@.len() == cand@.len(),
                forall|k: int| 0 <= k < weights@.len() ==> #[trigger] weights@[k] >= 1,
                d <= draws@.len(),
                r@.len() <= fanout,
                d > 0 && fanout > 0 ==> r@.len() > 0,
                r@.no_duplicates(),
                forall|j: int| 0 <= j < r@.len() ==> #[trigger] cand@.contains(r@[j]),
            decreases draws@.len() - d,
        {
            proof {
                assert(draws@.subrange(0, d + 1).drop_last() =~= draws@.subrange(0, d as int));
            }
            let idx = pick_weighted(&weights, draws[d]);
            let id = cand[idx];
            if r.len() < fanout && !contains_id(&r, id) {
                let ghost prev = r@;
                r.push(id);
                proof {
                    assert forall|j: int| 0 <= j < r@.len() implies #[trigger] cand@.contains(r@[j]) by {
                        if j < prev.len() {
                            assert(r@[j] == prev[j]);
                        } else {
                            assert(cand@[idx as int] == id);
                        }
                    }
                    assert forall|a: int, b: int| 0 <= a < r@.len() && 0 <= b < r@.len() && a != b
                        implies r@[a] != r@[b] by {
                        if a < prev.len() && b < prev.len() {
                            assert(prev[a] != prev[b]);
                        } else if a < prev.len() {
                            assert(prev.contains(prev[a]));
                        } else if b < prev.len() {
                            assert(prev.contains(prev[b]));
                        }
                    }
                }
            }
            d = d + 1;
        }
        proof {
            assert(draws@.subrange(0, d as int) =~= draws@);
            assert forall|j: int| 0 <= j < r@.len() implies is_target_in(self.spec_peers(), self.spec_threshold(), #[trigger] r@[j]) by {
                assert(cand@.contains(r@[j]));
                let c = choose|c: int| 0 <= c < cand@.len() && cand@[c] == r@[j];
                lemma_active_ids_members(self.peers@, self.threshold, c);
                let w = choose|w: int|
                    0 <= w < self.peers@.len() && #[trigger] self.peers@[w].id == cand@[c] && is_active(
                        self.peers@[w],
                        self.threshold,
                    );
                assert(self.spec_peers()[w].id == r@[j]);
            }
        }
        r
    }

    /// The ids of all peers that are still gossip targets, in admission order.
    pub fn active_targets(&self) -> (r: Vec<u64>)
        requires
            self.wf(),
        ensures
            r@ == active_ids(self.spec_peers(), self.spec_threshold()),
    {
        let mut r: Vec<u64> = Vec::new();
        let mut i: usize = 0;
        while i < self.peers.len()
            invariant
                i <= self.peers@.len(),
                r@ == active_ids(self.peers@.subrange(0, i as int), self.threshold),
            decreases self.peers@.len() - i,
        {
            if self.peers[i].failures < self.threshold {
                r.push(self.peers[i].id);
            }
            proof {
                assert(self.peers@.subrange(0, i + 1).drop_last() =~= self.peers@.subrange(0, i as int));
            }
            i = i + 1;
        }
        proof {
            assert(self.peers@.subrange(0, i as int) =~= self.peers@);
        }
        r
    }
}

} // verus!
