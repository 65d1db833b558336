use vstd::prelude::*;

use crate::record::SocketAddress;

verus! {

/// Phase of joining the cluster.
#[derive(Clone, Copy, Debug, PartialEq, Eq, Structural)]
pub enum BootstrapState {
    Unseeded,
    Resolving,
    /// At least one entrypoint resolved and was handed out as a seed peer.
    Seeded,
    /// A real contact record was learned from the mesh.
    Converged,
    /// No entrypoint could be resolved or reached within the retry budget.
    Failed,
}

/// What is known of one configured entrypoint.
#[derive(Clone, Copy, Debug, PartialEq, Eq, Structural)]
pub enum EntrypointStatus {
    Pending,
    Unresolvable,
    Resolved { addr: SocketAddress },
    Responded { addr: SocketAddress },
}

/// Have all entrypoints failed to resolve?
pub open spec fn none_resolvable(s: Seq<EntrypointStatus>) -> bool {
    forall|i: int| 0 <= i < s.len() ==> #[trigger] s[i] == EntrypointStatus::Unresolvable
}

/// Drives bootstrap from the configured entrypoints to membership in the mesh.
pub struct Bootstrap {
    state: BootstrapState,
    entrypoints: Vec<EntrypointStatus>,
    idle_rounds: u32,
    retry_budget: u32,
}

impl Bootstrap {
    pub closed spec fn spec_state(&self) -> BootstrapState {
        self.state
    }

    pub closed spec fn spec_entrypoints(&self) -> Seq<EntrypointStatus> {
        self.entrypoints@
    }

    /// Rounds in a row, since seeding, in which no peer answered.
    pub closed spec fn spec_idle_rounds(&self) -> u32 {
        self.idle_rounds
    }

    pub closed spec fn spec_retry_budget(&self) -> u32 {
        self.retry_budget
    }

    /// A bootstrap over `count` entrypoints that gives up after `retry_budget`
    /// rounds without any answer.
    pub fn new(count: usize, retry_budget: u32) -> (r: Bootstrap)
        ensures
            r.spec_state() == BootstrapState::Unseeded,
            r.spec_entrypoints() == Seq::new(count as nat, |i: int| EntrypointStatus::Pending),
            r.spec_idle_rounds() == 0,
            r.spec_retry_budget() == retry_budget,
    {
        let mut entrypoints: Vec<EntrypointStatus> = Vec::new();
        let mut i: usize = 0;
        while i < count
            invariant
                i <= count,
                entrypoints@ == Seq::new(i as nat, |j: int| EntrypointStatus::Pending),
            decreases count - i,
        {
            entrypoints.push(EntrypointStatus::Pending);
            i = i + 1;
            assert(entrypoints@ =~= Seq::new(i as nat, |j: int| EntrypointStatus::Pending));
        }
        Bootstrap { state: BootstrapState::Unseeded, entrypoints, idle_rounds: 0, retry_budget }
    }

    pub fn state(&self) -> (r: BootstrapState)
        ensures
            r == self.spec_state(),
    {
        self.state
    }

    pub fn entrypoint(&self, i: usize) -> (r: EntrypointStatus)
        requires
            i < self.spec_entrypoints().len(),
        ensures
            r == self.spec_entrypoints()[i as int],
    {
        self.entrypoints[i]
    }

    pub fn entrypoint_count(&self) -> (r: usize)
        ensures
            r == self.spec_entrypoints().len(),
    {
        self.entrypoints.len()
    }

    /// Start resolving the entrypoints. With none configured there is nothing
    /// to join through, and bootstrap fails.
    pub fn begin(&mut self)
        ensures
            final(self).spec_entrypoints() == old(self).spec_entrypoints(),
            final(self).spec_idle_rounds() == old(self).spec_idle_rounds(),
            final(self).spec_retry_budget() == old(self).spec_retry_budget(),
            final(self).spec_state() == (if old(self).spec_state() != BootstrapState::Unseeded {
                old(self).spec_state()
            } else if old(self).spec_entrypoints().len() == 0 {
                BootstrapState::Failed
            } else {
                BootstrapState::Resolving
            }),
    {
        if self.state == BootstrapState::Unseeded {
            if self.entrypoints.len() == 0 {
                self.state = BootstrapState::Failed;
            } else {
                self.state = BootstrapState::Resolving;
            }
        }
    }

    /// Entrypoint `i` resolved to `addr`. Returns whether `addr` should be
    /// seeded as a bootstrap peer: the first resolution of a pending entry.
    pub fn on_resolved(&mut self, i: usize, addr: SocketAddress) -> (r: bool)
        requires
            i < old(self).spec_entrypoints().len(),
        ensures
            r == (old(self).spec_entrypoints()[i as int] == EntrypointStatus::Pending
                && old(self).spec_state() != BootstrapState::Failed),
            final(self).spec_idle_rounds() == old(self).spec_idle_rounds(),
            final(self).spec_retry_budget() == old(self).spec_retry_budget(),
            r ==> final(self).spec_entrypoints() == old(self).spec_entrypoints().update(
                i as int,
                EntrypointStatus::Resolved { addr },
            ),
            !r ==> final(self).spec_entrypoints() == old(self).spec_entrypoints(),
            final(self).spec_state() == (if r && (old(self).spec_state() == BootstrapState::Unseeded
                || old(self).spec_state() == BootstrapState::Resolving) {
                BootstrapState::Seeded
            } else {
                old(self).spec_state()
            }),
    {
        if self.state == BootstrapState::Failed || self.entrypoints[i] != EntrypointStatus::Pending {
            return false;
        }
        self.entrypoints.set(i, EntrypointStatus::Resolved { addr });
        if self.state == BootstrapState::Unseeded || self.state == BootstrapState::Resolving {
            self.state = BootstrapState::Seeded;
        }
        true
    }

    /// Entrypoint `i` could not be resolved. Once every entrypoint has failed
    /// to resolve before any was seeded, bootstrap fails.
    pub fn on_resolution_failed(&mut self, i: usize)
        requires
            i < old(self).spec_entrypoints().len(),
        ensures
            final(self).spec_idle_rounds() == old(self).spec_idle_rounds(),
            final(self).spec_retry_budget() == old(self).spec_retry_budget(),
            final(self).spec_entrypoints() == (if old(self).spec_entrypoints()[i as int]
                == EntrypointStatus::Pending {
                old(self).spec_entrypoints().update(i as int, EntrypointStatus::Unresolvable)
            } else {
                old(self).spec_entrypoints()
            }),
            final(self).spec_state() == (if (old(self).spec_state() == BootstrapState::Unseeded
                || old(self).spec_state() == BootstrapState::Resolving) && none_resolvable(
                final(self).spec_entrypoints(),
            ) {
                BootstrapState::Failed
            } else {
                old(self).spec_state()
            }),
    {
        if self.entrypoints[i] == EntrypointStatus::Pending {
            self.entrypoints.set(i, EntrypointStatus::Unresolvable);
        }
        if self.state == BootstrapState::Unseeded || self.state == BootstrapState::Resolving {
            let mut all: bool = true;
            let mut j: usize = 0;
            while j < self.entrypoints.len()
                invariant
                    j <= self.entrypoints@.len(),
                    all == (forall|k: int|
                        0 <= k < j ==> #[trigger] self.entrypoints@[k]
                            == EntrypointStatus::Unresolvable),
                decreases self.entrypoints@.len() - j,
            {
                if self.entrypoints[j] != EntrypointStatus::Unresolvable {
                    all = false;
                }
                j = j + 1;
            }
            if all {
                self.state = BootstrapState::Failed;
            }
        }
    }

    /// The resolved entrypoint `i` answered. Returns whether this was recorded.
    pub fn on_response(&mut self, i: usize) -> (r: bool)
        requires
            i < old(self).spec_entrypoints().len(),
        ensures
            r == (old(self).spec_entrypoints()[i as int] is Resolved && old(self).spec_state()
                != BootstrapState::Failed),
            final(self).spec_state() == old(self).spec_state(),
            final(self).spec_retry_budget() == old(self).spec_retry_budget(),
            r ==> final(self).spec_idle_rounds() == 0,
            r ==> final(self).spec_entrypoints() == old(self).spec_entrypoints().update(
                i as int,
                EntrypointStatus::Responded {
                    addr: old(self).spec_entrypoints()[i as int]->Resolved_addr,
                },
            ),
            !r ==> *final(self) == *old(self),
    {
        if self.state == BootstrapState::Failed {
            return false;
        }
        match self.entrypoints[i] {
            EntrypointStatus::Resolved { addr } => {
                self.entrypoints.set(i, EntrypointStatus::Responded { addr });
                self.idle_rounds = 0;
                true
            },
            _ => false,
        }
    }

    /// A real contact record was learned through gossip: a seeded node has
    /// joined the mesh.
    pub fn on_record_learned(&mut self)
        ensures
            final(self).spec_entrypoints() == old(self).spec_entrypoints(),
            final(self).spec_retry_budget() == old(self).spec_retry_budget(),
            final(self).spec_idle_rounds() == old(self).spec_idle_rounds(),
            final(self).spec_state() == (if old(self).spec_state() == BootstrapState::Seeded {
                BootstrapState::Converged
            } else {
                old(self).spec_state()
            }),
    {
        if self.state == BootstrapState::Seeded {
            self.state = BootstrapState::Converged;
        }
    }

    /// End of a gossip round while seeded; `answered` tells whether any peer
    /// answered in it. After `retry_budget` rounds in a row without an answer,
    /// bootstrap fails.
    pub fn on_round_end(&mut self, answered: bool)
        ensures
            final(self).spec_entrypoints() == old(self).spec_entrypoints(),
            final(self).spec_retry_budget() == old(self).spec_retry_budget(),
            old(self).spec_state() != BootstrapState::Seeded ==> *final(self) == *old(self),
            old(self).spec_state() == BootstrapState::Seeded ==> final(self).spec_idle_rounds() == (
            if answered {
                0
            } else if old(self).spec_idle_rounds() == u32::MAX {
                u32::MAX
            } else {
                (old(self).spec_idle_rounds() + 1) as u32
            }),
            old(self).spec_state() == BootstrapState::Seeded ==> final(self).spec_state() == (if final(self).spec_idle_rounds()
                >= old(self).spec_retry_budget() {
                BootstrapState::Failed
            } else {
                BootstrapState::Seeded
            }),
    {
        if self.state != BootstrapState::Seeded {
            return;
        }
        if answered {
            self.idle_rounds = 0;
        } else if self.idle_rounds < u32::MAX {
            self.idle_rounds = self.idle_rounds + 1;
        }
        if self.idle_rounds >= self.retry_budget {
            self.state = BootstrapState::Failed;
        }
    }

    /// The first resolved entrypoint that has not answered yet: the next one
    /// to contact.
    pub fn next_to_contact(&self) -> (r: Option<usize>)
        ensures
            match r {
                Some(i) => i < self.spec_entrypoints().len() && self.spec_entrypoints()[i as int] is Resolved
                    && forall|j: int| 0 <= j < i ==> !(#[trigger] self.spec_entrypoints()[j] is Resolved),
                None => forall|j: int|
                    0 <= j < self.spec_entrypoints().len() ==> !(#[trigger] self.spec_entrypoints()[j] is Resolved),
            },
    {
        let mut i: usize = 0;
        while i < self.entrypoints.len()
            invariant
                i <= self.entrypoints@.len(),
                forall|j: int| 0 <= j < i ==> !(#[trigger] self.entrypoints@[j] is Resolved),
            decreases self.entrypoints@.len() - i,
        {
            match self.entrypoints[i] {
                EntrypointStatus::Resolved { .. } => {
                    return Some(i);
                },
                _ => {},
            }
            i = i + 1;
        }
        None
    }
}

} // verus!
