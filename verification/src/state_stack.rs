//! A LIFO stack of search branches, with bookkeeping ids.

use crate::game_state::GameState;
use vstd::prelude::*;

verus! {

/// The label a forked branch is filed under.
#[derive(Debug)]
pub struct BranchId(pub usize);

/// One branch awaiting exploration.
pub struct StateStackEntry {
    pub branch_id: BranchId,
    pub state: GameState,
}

/// A state stack used for branching solvers that assigns ids to forked
/// [`GameState`] instances. Ids stop counting up at the machine limit.
pub struct StateStack {
    pub stack: Vec<StateStackEntry>,
    pub max_depth: usize,
    pub forks: usize,
}

impl StateStack {
    /// Every stacked board is well formed.
    pub open spec fn wf(self) -> bool {
        forall|k: int| 0 <= k < self.stack@.len() ==> (#[trigger] self.stack@[k]).state.wf()
    }

    pub fn new_with(state: GameState) -> (r: Self)
        requires
            state.wf(),
        ensures
            r.wf(),
            r.stack@.len() == 1,
            r.stack@[0].state@ == state@,
            r.stack@[0].branch_id.0 == 0,
            r.max_depth == 1,
            r.forks == 0,
    {
        let mut stack: Vec<StateStackEntry> = Vec::new();
        stack.push(StateStackEntry { branch_id: BranchId(0), state });
        StateStack { stack, max_depth: 1, forks: 0 }
    }

    pub fn push(&mut self, state: GameState)
        requires
            old(self).wf(),
            state.wf(),
        ensures
            final(self).wf(),
            final(self).stack@.len() == old(self).stack@.len() + 1,
            forall|k: int|
                0 <= k < old(self).stack@.len() ==> final(self).stack@[k] == old(self).stack@[k],
            final(self).stack@[old(self).stack@.len() as int].state == state,
            final(self).forks == if old(self).forks < usize::MAX {
                old(self).forks + 1
            } else {
                old(self).forks as int
            },
            final(self).stack@[old(self).stack@.len() as int].branch_id.0 == final(self).forks,
            final(self).max_depth == if final(self).stack@.len() > old(self).max_depth {
                final(self).stack@.len() as int
            } else {
                old(self).max_depth as int
            },
    {
        self.forks = if self.forks < usize::MAX {
            self.forks + 1
        } else {
            self.forks
        };
        let id = BranchId(self.forks);
        let ghost before = self.stack@;
        self.stack.push(StateStackEntry { branch_id: id, state });
        if self.stack.len() > self.max_depth {
            self.max_depth = self.stack.len();
        }
        proof {
            assert forall|k: int|
                0 <= k < self.stack@.len() implies (#[trigger] self.stack@[k]).state.wf() by {
                if k < before.len() {
                    assert(self.stack@[k] == before[k]);
                }
            }
        }
    }

    pub fn pop(&mut self) -> (r: Option<StateStackEntry>)
        requires
            old(self).wf(),
        ensures
            final(self).wf(),
            old(self).stack@.len() == 0 ==> r is None && final(self).stack@ == old(self).stack@,
            old(self).stack@.len() > 0 ==> (r matches Some(e) && e == old(self).stack@.last()
                && final(self).stack@ == old(self).stack@.drop_last()),
            final(self).forks == old(self).forks,
            final(self).max_depth == old(self).max_depth,
    {
        self.stack.pop()
    }

    pub fn len(&self) -> (r: usize)
        ensures
            r == self.stack@.len(),
    {
        self.stack.len()
    }

    pub fn max_depth(&self) -> (r: usize)
        ensures
            r == self.max_depth,
    {
        self.max_depth
    }

    pub fn num_forks(&self) -> (r: usize)
        ensures
            r == self.forks,
    {
        self.forks
    }
}

} // verus!
