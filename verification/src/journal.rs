//! The transaction protocol that wraps every mutating operation.
//!
//! A transaction goes from idle to open, stopped, committed and back to
//! idle. While it is open, a block is registered before it is changed and
//! marked dirty afterwards; the number of blocks that one transaction may
//! register is bounded by the budget declared at its start. With
//! journaling disabled every step is accepted and does nothing.
//!
//! Nothing is logged. The journal keeps the protocol and its bookkeeping:
//! which blocks the transaction in progress has registered and marked
//! dirty, and which blocks the last transaction that was checkpointed had
//! marked dirty. A checkpoint writes every modified block of the cache to
//! its own place on the device; there is no log region and no replay, so
//! a stop of the device in the middle of an operation can leave a part of
//! its changes on the device.

use vstd::prelude::*;
use crate::block_cache::BlockCache;
use crate::block_dev::BlockDevice;

verus! {

/// Where a transaction stands.
#[derive(Clone, Copy, PartialEq, Eq, Debug, Structural)]
pub enum TxState {
    Idle,
    Open,
    Stopped,
    Committed,
}

/// Why a step of the protocol was refused.
#[derive(Clone, Copy, PartialEq, Eq, Debug, Structural)]
pub enum JournalError {
    /// The step does not follow the state that the transaction is in.
    OutOfOrder,
    /// The transaction has registered as many blocks as its budget allows.
    BudgetExceeded,
    /// The block was not registered before it was marked dirty.
    NoWriteAccess,
}

/// The journal: whether it is enabled, and the transaction in progress.
pub struct Journal {
    enabled: bool,
    state: TxState,
    budget: usize,
    /// The registered blocks, each once.
    blocks: Vec<usize>,
    /// For each registered block, whether it was marked dirty.
    dirty: Vec<bool>,
    /// The blocks that the last checkpointed transaction had registered.
    last_blocks: Vec<usize>,
    /// For each of them, whether it was marked dirty.
    last_dirty: Vec<bool>,
}

impl Journal {
    /// The journal's invariant.
    pub closed spec fn wf(&self) -> bool {
        &&& self.blocks@.len() == self.dirty@.len()
        &&& self.blocks@.len() <= self.budget
        &&& forall|i: int, j: int|
            0 <= i < j < self.blocks@.len() ==> self.blocks@[i] != self.blocks@[j]
        &&& self.state == TxState::Idle ==> self.blocks@.len() == 0
        &&& !self.enabled ==> self.state == TxState::Idle
        &&& self.last_blocks@.len() == self.last_dirty@.len()
    }

    /// Whether journaling is enabled.
    pub closed spec fn enabled(&self) -> bool {
        self.enabled
    }

    /// The state of the transaction.
    pub closed spec fn state(&self) -> TxState {
        self.state
    }

    /// The budget of the transaction in progress.
    pub closed spec fn budget(&self) -> int {
        self.budget as int
    }

    /// The blocks registered with the transaction in progress.
    pub closed spec fn registered(&self) -> Set<int> {
        Set::new(|b: int| exists|i: int| 0 <= i < self.blocks@.len() && self.blocks@[i] == b)
    }

    /// The blocks marked dirty within the transaction in progress.
    pub closed spec fn dirtied(&self) -> Set<int> {
        Set::new(
            |b: int|
                exists|i: int| 0 <= i < self.blocks@.len() && self.blocks@[i] == b && self.dirty@[i],
        )
    }

    /// The number of blocks registered with the transaction in progress.
    pub closed spec fn count(&self) -> int {
        self.blocks@.len() as int
    }

    /// The blocks that the last checkpointed transaction had marked dirty.
    pub closed spec fn committed(&self) -> Set<int> {
        Set::new(
            |b: int|
                exists|i: int|
                    0 <= i < self.last_blocks@.len() && self.last_blocks@[i] == b
                        && self.last_dirty@[i],
        )
    }

    /// A journal with no transaction in progress.
    pub fn new(enabled: bool) -> (journal: Journal)
        ensures
            journal.wf(),
            journal.enabled() == enabled,
            journal.state() == TxState::Idle,
            journal.count() == 0,
            journal.registered() == Set::<int>::empty(),
            journal.dirtied() == Set::<int>::empty(),
            journal.committed() == Set::<int>::empty(),
    {
        let journal = Journal {
            enabled,
            state: TxState::Idle,
            budget: 0,
            blocks: Vec::new(),
            dirty: Vec::new(),
            last_blocks: Vec::new(),
            last_dirty: Vec::new(),
        };
        assert(journal.registered() =~= Set::<int>::empty());
        assert(journal.dirtied() =~= Set::<int>::empty());
        assert(journal.committed() =~= Set::<int>::empty());
        journal
    }

    /// Tells whether journaling is enabled.
    pub fn is_enabled(&self) -> (r: bool)
        ensures
            r == self.enabled(),
    {
        self.enabled
    }

    /// Tells whether the last checkpointed transaction had marked `block`
    /// dirty.
    pub fn was_committed(&self, block: usize) -> (r: bool)
        requires
            self.wf(),
        ensures
            r == self.committed().contains(block as int),
    {
        let mut i: usize = 0;
        while i < self.last_blocks.len()
            invariant
                i <= self.last_blocks@.len(),
                self.last_blocks@.len() == self.last_dirty@.len(),
                forall|j: int|
                    0 <= j < i ==> !(self.last_blocks@[j] == block && self.last_dirty@[j]),
            decreases self.last_blocks@.len() - i,
        {
            if self.last_blocks[i] == block && self.last_dirty[i] {
                return true;
            }
            i += 1;
        }
        false
    }

    /// Tells the state of the transaction.
    pub fn current_state(&self) -> (s: TxState)
        ensures
            s == self.state(),
    {
        self.state
    }

    /// Opens a transaction that may register up to `budget` blocks. Only
    /// an idle journal accepts this.
    pub fn start(&mut self, budget: usize) -> (r: Result<(), JournalError>)
        requires
            old(self).wf(),
        ensures
            final(self).wf(),
            final(self).enabled() == old(self).enabled(),
            final(self).committed() == old(self).committed(),
            !old(self).enabled() ==> r is Ok && *final(self) == *old(self),
            old(self).enabled() ==> (r is Ok <==> old(self).state() == TxState::Idle),
            old(self).enabled() && r is Ok ==> {
                &&& final(self).state() == TxState::Open
                &&& final(self).budget() == budget
                &&& final(self).count() == 0
                &&& final(self).registered() == Set::<int>::empty()
                &&& final(self).dirtied() == Set::<int>::empty()
            },
            r is Err ==> r == Err::<(), JournalError>(JournalError::OutOfOrder) && *final(self)
                == *old(self),
    {
        if !self.enabled {
            return Ok(());
        }
        if self.state != TxState::Idle {
            return Err(JournalError::OutOfOrder);
        }
        self.state = TxState::Open;
        self.budget = budget;
        assert(self.registered() =~= Set::<int>::empty());
        assert(self.dirtied() =~= Set::<int>::empty());
        Ok(())
    }

    /// Registers `block` with the open transaction, before the block is
    /// changed. Registering a block again is accepted and changes nothing.
    pub fn get_write_access(&mut self, block: usize) -> (r: Result<(), JournalError>)
        requires
            old(self).wf(),
        ensures
            final(self).wf(),
            final(self).enabled() == old(self).enabled(),
            final(self).committed() == old(self).committed(),
            final(self).state() == old(self).state(),
            final(self).budget() == old(self).budget(),
            final(self).dirtied() == old(self).dirtied(),
            !old(self).enabled() ==> r is Ok && *final(self) == *old(self),
            old(self).enabled() ==> (match r {
                Ok(_) => {
                    &&& old(self).state() == TxState::Open
                    &&& old(self).registered().contains(block as int) || old(self).count()
                        < old(self).budget()
                    &&& final(self).registered() == old(self).registered().insert(block as int)
                    &&& final(self).count() == old(self).count() + (if old(self).registered().contains(
                        block as int,
                    ) {
                        0int
                    } else {
                        1int
                    })
                },
                Err(JournalError::OutOfOrder) => {
                    &&& old(self).state() != TxState::Open
                    &&& *final(self) == *old(self)
                },
                Err(JournalError::BudgetExceeded) => {
                    &&& old(self).state() == TxState::Open
                    &&& !old(self).registered().contains(block as int)
                    &&& old(self).count() >= old(self).budget()
                    &&& *final(self) == *old(self)
                },
                Err(JournalError::NoWriteAccess) => false,
            }),
    {
        if !self.enabled {
            return Ok(());
        }
        if self.state != TxState::Open {
            return Err(JournalError::OutOfOrder);
        }
        let mut i: usize = 0;
        while i < self.blocks.len()
            invariant
                i <= self.blocks@.len(),
                *self == *old(self),
                self.wf(),
                self.enabled,
                self.state == TxState::Open,
                forall|j: int| 0 <= j < i ==> self.blocks@[j] != block,
            decreases self.blocks@.len() - i,
        {
            if self.blocks[i] == block {
                assert(self.registered().contains(block as int));
                assert(self.registered() =~= self.registered().insert(block as int));
                return Ok(());
            }
            i += 1;
        }
        assert(!self.registered().contains(block as int));
        if self.blocks.len() >= self.budget {
            return Err(JournalError::BudgetExceeded);
        }
        self.blocks.push(block);
        self.dirty.push(false);
        proof {
            let b0 = old(self).blocks@;
            let b1 = self.blocks@;
            assert forall|b: int| #[trigger]
                self.registered().contains(b) == old(self).registered().insert(
                    block as int,
                ).contains(b) by {
                if old(self).registered().insert(block as int).contains(b) {
                    if b == block {
                        assert(b1[b0.len() as int] == b);
                    } else {
                        let k = choose|k: int| 0 <= k < b0.len() && b0[k] == b;
                        assert(b1[k] == b);
                    }
                }
            }
            assert(self.registered() =~= old(self).registered().insert(block as int));
            assert forall|b: int| #[trigger]
                self.dirtied().contains(b) == old(self).dirtied().contains(b) by {
                if old(self).dirtied().contains(b) {
                    let k = choose|k: int|
                        0 <= k < b0.len() && b0[k] == b && old(self).dirty@[k];
                    assert(b1[k] == b && self.dirty@[k]);
                }
                if self.dirtied().contains(b) {
                    let k = choose|k: int| 0 <= k < b1.len() && b1[k] == b && self.dirty@[k];
                    assert(k < b0.len());
                    assert(b0[k] == b && old(self).dirty@[k]);
                }
            }
            assert(self.dirtied() =~= old(self).dirtied());
        }
        Ok(())
    }

    /// Marks `block`, which must have been registered, as changed within
    /// the open transaction.
    pub fn dirty_metadata(&mut self, block: usize) -> (r: Result<(), JournalError>)
        requires
            old(self).wf(),
        ensures
            final(self).wf(),
            final(self).enabled() == old(self).enabled(),
            final(self).committed() == old(self).committed(),
            final(self).state() == old(self).state(),
            final(self).budget() == old(self).budget(),
            final(self).registered() == old(self).registered(),
            final(self).count() == old(self).count(),
            !old(self).enabled() ==> r is Ok && *final(self) == *old(self),
            old(self).enabled() ==> (match r {
                Ok(_) => {
                    &&& old(self).state() == TxState::Open
                    &&& old(self).registered().contains(block as int)
                    &&& final(self).dirtied() == old(self).dirtied().insert(block as int)
                },
                Err(JournalError::OutOfOrder) => {
                    &&& old(self).state() != TxState::Open
                    &&& *final(self) == *old(self)
                },
                Err(JournalError::NoWriteAccess) => {
                    &&& old(self).state() == TxState::Open
                    &&& !old(self).registered().contains(block as int)
                    &&& *final(self) == *old(self)
                },
                Err(JournalError::BudgetExceeded) => false,
            }),
    {
        if !self.enabled {
            return Ok(());
        }
        if self.state != TxState::Open {
            return Err(JournalError::OutOfOrder);
        }
        let mut i: usize = 0;
        while i < self.blocks.len()
            invariant
                i <= self.blocks@.len(),
                *self == *old(self),
                self.wf(),
                self.enabled,
                self.state == TxState::Open,
                forall|j: int| 0 <= j < i ==> self.blocks@[j] != block,
            decreases self.blocks@.len() - i,
        {
            if self.blocks[i] == block {
                self.dirty[i] = true;
                proof {
                    let b0 = self.blocks@;
                    let d0 = old(self).dirty@;
                    let d1 = self.dirty@;
                    assert(old(self).registered().contains(block as int));
                    assert(self.registered() =~= old(self).registered());
                    assert forall|b: int| #[trigger]
                        self.dirtied().contains(b) == old(self).dirtied().insert(
                            block as int,
                        ).contains(b) by {
                        if old(self).dirtied().insert(block as int).contains(b) {
                            if b == block {
                                assert(b0[i as int] == b && d1[i as int]);
                            } else {
                                let k = choose|k: int| 0 <= k < b0.len() && b0[k] == b && d0[k];
                                assert(b0[k] == b && d1[k]);
                            }
                        }
                        if self.dirtied().contains(b) && b != block {
                            let k = choose|k: int| 0 <= k < b0.len() && b0[k] == b && d1[k];
                            assert(k != i);
                            assert(b0[k] == b && d0[k]);
                        }
                    }
                    assert(self.dirtied() =~= old(self).dirtied().insert(block as int));
                }
                return Ok(());
            }
            i += 1;
        }
        assert(!self.registered().contains(block as int));
        Err(JournalError::NoWriteAccess)
    }

    /// Closes the open transaction to further registrations.
    pub fn stop(&mut self) -> (r: Result<(), JournalError>)
        requires
            old(self).wf(),
        ensures
            final(self).wf(),
            final(self).enabled() == old(self).enabled(),
            final(self).committed() == old(self).committed(),
            final(self).budget() == old(self).budget(),
            final(self).registered() == old(self).registered(),
            final(self).dirtied() == old(self).dirtied(),
            final(self).count() == old(self).count(),
            !old(self).enabled() ==> r is Ok && *final(self) == *old(self),
            old(self).enabled() ==> (r is Ok <==> old(self).state() == TxState::Open),
            old(self).enabled() && r is Ok ==> final(self).state() == TxState::Stopped,
            r is Err ==> r == Err::<(), JournalError>(JournalError::OutOfOrder) && *final(self)
                == *old(self),
    {
        if !self.enabled {
            return Ok(());
        }
        if self.state != TxState::Open {
            return Err(JournalError::OutOfOrder);
        }
        self.state = TxState::Stopped;
        Ok(())
    }

    /// Commits the stopped transaction: from here on its changes count as
    /// made.
    pub fn commit(&mut self) -> (r: Result<(), JournalError>)
        requires
            old(self).wf(),
        ensures
            final(self).wf(),
            final(self).enabled() == old(self).enabled(),
            final(self).committed() == old(self).committed(),
            final(self).budget() == old(self).budget(),
            final(self).registered() == old(self).registered(),
            final(self).dirtied() == old(self).dirtied(),
            final(self).count() == old(self).count(),
            !old(self).enabled() ==> r is Ok && *final(self) == *old(self),
            old(self).enabled() ==> (r is Ok <==> old(self).state() == TxState::Stopped),
            old(self).enabled() && r is Ok ==> final(self).state() == TxState::Committed,
            r is Err ==> r == Err::<(), JournalError>(JournalError::OutOfOrder) && *final(self)
                == *old(self),
    {
        if !self.enabled {
            return Ok(());
        }
        if self.state != TxState::Stopped {
            return Err(JournalError::OutOfOrder);
        }
        self.state = TxState::Committed;
        Ok(())
    }

    /// Writes the blocks of the committed transaction, and every other
    /// modified block, back to the device, and returns the journal to idle.
    pub fn checkpoint<D: BlockDevice>(&mut self, cache: &mut BlockCache<D>) -> (r: Result<
        (),
        JournalError,
    >)
        requires
            old(self).wf(),
            old(cache).wf(),
        ensures
            final(self).wf(),
            final(cache).wf(),
            final(cache)@ == old(cache)@,
            final(self).enabled() == old(self).enabled(),
            !old(self).enabled() ==> r is Ok && *final(self) == *old(self)
                && final(cache).durable() == old(cache).durable(),
            old(self).enabled() ==> (r is Ok <==> old(self).state() == TxState::Committed),
            old(self).enabled() && r is Ok ==> {
                &&& final(self).state() == TxState::Idle
                &&& final(self).count() == 0
                &&& final(self).committed() == old(self).dirtied()
                &&& final(cache).durable() == old(cache)@
            },
            r is Err ==> r == Err::<(), JournalError>(JournalError::OutOfOrder) && *final(self)
                == *old(self) && final(cache).durable() == old(cache).durable(),
    {
        if !self.enabled {
            return Ok(());
        }
        if self.state != TxState::Committed {
            return Err(JournalError::OutOfOrder);
        }
        cache.sync_all();
        core::mem::swap(&mut self.blocks, &mut self.last_blocks);
        core::mem::swap(&mut self.dirty, &mut self.last_dirty);
        self.blocks.clear();
        self.dirty.clear();
        self.state = TxState::Idle;
        assert(self.committed() =~= old(self).dirtied());
        Ok(())
    }
}

} // verus!
