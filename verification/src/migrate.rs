use vstd::prelude::*;
use crate::topology::{Cluster, Node, owner_count, lemma_owner_count_pointwise};
use crate::fix::remove_slot;

verus! {

/// Applies a finished slot migration to the topology view: slot `s` leaves
/// the slot set of the node at `src` and enters the slot set of the node at
/// `dst`; no other node and no other slot changes hands.
pub fn apply_slot_move(c: &mut Cluster, s: u16, src: usize, dst: usize)
    requires
        src < old(c).nodes@.len(),
        dst < old(c).nodes@.len(),
        src != dst,
        old(c).nodes@[src as int].slots@.contains(s),
        old(c).nodes@[dst as int].role is Master,
    ensures
        final(c).nodes@.len() == old(c).nodes@.len(),
        forall|j: int|
            0 <= j < old(c).nodes@.len() ==> (#[trigger] final(c).nodes@[j]).same_shape(
                old(c).nodes@[j],
            ),
        forall|j: int|
            0 <= j < old(c).nodes@.len() && j != src && j != dst ==> final(c).nodes@[j] == old(
                c,
            ).nodes@[j],
        final(c).nodes@[dst as int].owns(s),
        !final(c).nodes@[src as int].slots@.contains(s),
        forall|j: int, t: u16|
            0 <= j < old(c).nodes@.len() && t != s ==> ((#[trigger] final(c).nodes@[j].owns(t))
                <==> old(c).nodes@[j].owns(t)),
        forall|t: u16|
            t != s ==> #[trigger] owner_count(final(c).nodes@, t) == owner_count(
                old(c).nodes@,
                t,
            ),
        owner_count(final(c).nodes@, s) >= 1,
        final(c).nodes@[src as int].slots@.len() < old(c).nodes@[src as int].slots@.len(),
{
    let ghost orig = old(c).nodes@;
    let ghost pre_src = orig[src as int];
    let mut n = c.nodes.remove(src);
    let slots = remove_slot(&n.slots, s);
    n.slots = slots;
    c.nodes.insert(src, n);
    proof {
        assert(c.nodes@ =~= orig.update(src as int, c.nodes@[src as int]));
        assert(c.nodes@[src as int].same_shape(pre_src));
    }
    let ghost mid = c.nodes@;
    let mut d = c.nodes.remove(dst);
    d.slots.push(s);
    c.nodes.insert(dst, d);
    proof {
        assert(c.nodes@ =~= mid.update(dst as int, c.nodes@[dst as int]));
        assert(c.nodes@[dst as int].same_shape(mid[dst as int]));
        let post = c.nodes@;
        assert(post[dst as int].slots@ == mid[dst as int].slots@.push(s));
        assert(post[dst as int].slots@[post[dst as int].slots@.len() - 1] == s);
        assert(post[dst as int].owns(s));
        assert forall|j: int, t: u16| 0 <= j < orig.len() && t != s implies ((
        #[trigger] post[j].owns(t)) <==> orig[j].owns(t)) by {
            if j == src {
                assert(mid[j].slots@.contains(t) <==> (pre_src.slots@.contains(t) && t != s));
                assert(post[j] == mid[j]);
            } else if j == dst {
                assert(mid[j] == orig[j]);
                if orig[j].slots@.contains(t) {
                    let k = choose|k: int|
                        0 <= k < mid[j].slots@.len() && mid[j].slots@[k] == t;
                    assert(post[j].slots@[k] == t);
                }
                if post[j].slots@.contains(t) {
                    let k = choose|k: int|
                        0 <= k < post[j].slots@.len() && post[j].slots@[k] == t;
                    assert(k < mid[j].slots@.len());
                    assert(mid[j].slots@[k] == t);
                }
            } else {
                assert(post[j] == orig[j]);
            }
        }
        assert forall|t: u16| t != s implies #[trigger] owner_count(post, t) == owner_count(
            orig,
            t,
        ) by {
            lemma_owner_count_pointwise(post, orig, t);
        }
        crate::topology::lemma_owner_count_exists(post, s);
        crate::topology::lemma_owner_count_nonneg(post, s);
    }
}

/// Where a single slot migration stands in its strictly ordered protocol.
#[derive(Debug, Clone, Copy, PartialEq, Eq, Structural)]
pub enum MigrateState {
    /// Nothing sent yet.
    Start,
    /// The destination has been told to import the slot.
    ImportingSet,
    /// The source has been told it is migrating the slot.
    MigratingSet,
    /// Waiting for the next batch of keys stored under the slot.
    Fetching,
    /// A batch arrived; this many keys of it still have to be transferred.
    Moving(usize),
    /// No keys remain; ownership is being announced to each master in turn.
    Finalizing(usize),
    /// Every master has acknowledged the new owner.
    Done,
    /// The slot was left open; only the fixer can resolve it.
    Failed,
}

/// What the driver is told to do next.
#[derive(Debug, Clone, Copy, PartialEq, Eq, Structural)]
pub enum MigrateAction {
    /// Send the importing marker to the destination.
    MarkImporting,
    /// Send the migrating marker to the source.
    MarkMigrating,
    /// Fetch a bounded batch of keys stored under the slot from the source.
    FetchBatch,
    /// Transfer one key of the current batch to the destination.
    TransferKey,
    /// Announce the destination as owner to the master with this index.
    AssignOwner(usize),
    /// The migration is complete; nothing more to send.
    Finished,
    /// The migration failed; leave the slot for the fixer.
    Abort,
}

/// What came back from the node the last action was sent to.
#[derive(Debug, Clone, Copy, PartialEq, Eq, Structural)]
pub enum MigrateEvent {
    /// The command was acknowledged.
    Acked,
    /// A batch of this many keys arrived.
    Batch(usize),
    /// One key finished transferring, or was already at the destination.
    KeyDone,
    /// A transient transport failure; the key transfer may be retried.
    TransientError,
    /// An unrecoverable failure.
    FatalError,
}

/// One slot migration in flight: the protocol state, how many masters must
/// acknowledge the final ownership, and how many transient-error retries
/// remain before the whole slot migration fails.
pub struct Migration {
    pub state: MigrateState,
    pub master_count: usize,
    pub retries_left: u8,
}

/// The strictly ordered protocol as a transition function: from the current
/// state and the last event, the next state and the action to perform.
pub open spec fn migrate_step_spec(m: Migration, ev: MigrateEvent) -> (MigrateState, MigrateAction) {
    match ev {
        MigrateEvent::FatalError => (MigrateState::Failed, MigrateAction::Abort),
        MigrateEvent::TransientError => {
            if m.retries_left > 0 {
                (m.state, retry_action(m))
            } else {
                (MigrateState::Failed, MigrateAction::Abort)
            }
        },
        _ => match m.state {
            MigrateState::Start => (MigrateState::ImportingSet, MigrateAction::MarkImporting),
            MigrateState::ImportingSet => (
                MigrateState::MigratingSet,
                MigrateAction::MarkMigrating,
            ),
            MigrateState::MigratingSet => (MigrateState::Fetching, MigrateAction::FetchBatch),
            MigrateState::Fetching => match ev {
                MigrateEvent::Batch(n) => {
                    if n == 0 {
                        if m.master_count == 0 {
                            (MigrateState::Done, MigrateAction::Finished)
                        } else {
                            (MigrateState::Finalizing(0), MigrateAction::AssignOwner(0))
                        }
                    } else {
                        (MigrateState::Moving(n), MigrateAction::TransferKey)
                    }
                },
                _ => (MigrateState::Fetching, MigrateAction::FetchBatch),
            },
            MigrateState::Moving(left) => {
                if left <= 1 {
                    (MigrateState::Fetching, MigrateAction::FetchBatch)
                } else {
                    (MigrateState::Moving((left - 1) as usize), MigrateAction::TransferKey)
                }
            },
            MigrateState::Finalizing(next) => {
                if next + 1 < m.master_count {
                    (
                        MigrateState::Finalizing((next + 1) as usize),
                        MigrateAction::AssignOwner((next + 1) as usize),
                    )
                } else {
                    (MigrateState::Done, MigrateAction::Finished)
                }
            },
            MigrateState::Done => (MigrateState::Done, MigrateAction::Finished),
            MigrateState::Failed => (MigrateState::Failed, MigrateAction::Abort),
        },
    }
}

/// The action that repeats the step the transient error interrupted.
pub open spec fn retry_action(m: Migration) -> MigrateAction {
    match m.state {
        MigrateState::Start => MigrateAction::MarkImporting,
        MigrateState::ImportingSet => MigrateAction::MarkMigrating,
        MigrateState::MigratingSet => MigrateAction::FetchBatch,
        MigrateState::Fetching => MigrateAction::FetchBatch,
        MigrateState::Moving(_) => MigrateAction::TransferKey,
        MigrateState::Finalizing(next) => MigrateAction::AssignOwner(next),
        MigrateState::Done => MigrateAction::Finished,
        MigrateState::Failed => MigrateAction::Abort,
    }
}

impl Migration {
    /// A migration never finalizes toward a master index that does not
    /// exist.
    pub open spec fn wf(self) -> bool {
        match self.state {
            MigrateState::Finalizing(next) => next < self.master_count,
            _ => true,
        }
    }

    /// A migration about to start, with the given retry budget and the
    /// number of masters that must learn the final owner.
    pub fn new(master_count: usize, retries: u8) -> (r: Migration)
        ensures
            r.state == MigrateState::Start,
            r.master_count == master_count,
            r.retries_left == retries,
            r.wf(),
    {
        Migration { state: MigrateState::Start, master_count, retries_left: retries }
    }

    /// Advances the protocol by one event: the state moves and the action
    /// returned are exactly those of `migrate_step_spec`, a transient error
    /// spends one retry, and the five protocol steps can never run out of
    /// order.
    pub fn step(&mut self, ev: MigrateEvent) -> (r: MigrateAction)
        requires
            old(self).wf(),
        ensures
            final(self).wf(),
            (final(self).state, r) == migrate_step_spec(*old(self), ev),
            final(self).master_count == old(self).master_count,
            ev == MigrateEvent::TransientError ==> final(self).retries_left == (
            if old(self).retries_left > 0 {
                (old(self).retries_left - 1) as u8
            } else {
                0u8
            }),
            ev != MigrateEvent::TransientError ==> final(self).retries_left == old(
                self,
            ).retries_left,
    {
        match ev {
            MigrateEvent::FatalError => {
                self.state = MigrateState::Failed;
                MigrateAction::Abort
            },
            MigrateEvent::TransientError => {
                if self.retries_left > 0 {
                    self.retries_left = self.retries_left - 1;
                    match self.state {
                        MigrateState::Start => MigrateAction::MarkImporting,
                        MigrateState::ImportingSet => MigrateAction::MarkMigrating,
                        MigrateState::MigratingSet => MigrateAction::FetchBatch,
                        MigrateState::Fetching => MigrateAction::FetchBatch,
                        MigrateState::Moving(_) => MigrateAction::TransferKey,
                        MigrateState::Finalizing(next) => MigrateAction::AssignOwner(next),
                        MigrateState::Done => MigrateAction::Finished,
                        MigrateState::Failed => MigrateAction::Abort,
                    }
                } else {
                    self.state = MigrateState::Failed;
                    MigrateAction::Abort
                }
            },
            _ => match self.state {
                MigrateState::Start => {
                    self.state = MigrateState::ImportingSet;
                    MigrateAction::MarkImporting
                },
                MigrateState::ImportingSet => {
                    self.state = MigrateState::MigratingSet;
                    MigrateAction::MarkMigrating
                },
                MigrateState::MigratingSet => {
                    self.state = MigrateState::Fetching;
                    MigrateAction::FetchBatch
                },
                MigrateState::Fetching => match ev {
                    MigrateEvent::Batch(n) => {
                        if n == 0 {
                            if self.master_count == 0 {
                                self.state = MigrateState::Done;
                                MigrateAction::Finished
                            } else {
                                self.state = MigrateState::Finalizing(0);
                                MigrateAction::AssignOwner(0)
                            }
                        } else {
                            self.state = MigrateState::Moving(n);
                            MigrateAction::TransferKey
                        }
                    },
                    _ => {
                        self.state = MigrateState::Fetching;
                        MigrateAction::FetchBatch
                    },
                },
                MigrateState::Moving(left) => {
                    if left <= 1 {
                        self.state = MigrateState::Fetching;
                        MigrateAction::FetchBatch
                    } else {
                        self.state = MigrateState::Moving(left - 1);
                        MigrateAction::TransferKey
                    }
                },
                MigrateState::Finalizing(next) => {
                    if next + 1 < self.master_count {
                        self.state = MigrateState::Finalizing(next + 1);
                        MigrateAction::AssignOwner(next + 1)
                    } else {
                        self.state = MigrateState::Done;
                        MigrateAction::Finished
                    }
                },
                MigrateState::Done => MigrateAction::Finished,
                MigrateState::Failed => MigrateAction::Abort,
            },
        }
    }
}

} // verus!
