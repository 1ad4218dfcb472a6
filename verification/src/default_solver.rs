//! The solver engine: fixed-point strategy application plus heuristic
//! backtracking search over an explicit branch stack.

use crate::cell_group::{CellGroups, CollectIndexes};
use crate::game_cell::GameCell;
use crate::game_state::{board_le, board_pot, board_wf, lemma_board_le_trans, lemma_board_neq,
    lemma_board_pot_le, lemma_board_pot_lt, spec_consistent, spec_solved, GameState,
    InvalidGameState};
use crate::index::{Index, IndexBitSet};
use crate::state_stack::{StateStack, StateStackEntry};
use crate::strategies::hidden_singles::HiddenSingles;
use crate::strategies::hidden_twins::HiddenTwins;
use crate::strategies::naked_singles::NakedSingles;
use crate::strategies::naked_twins::NakedTwins;
use crate::strategies::xwing::XWing;
use crate::strategies::StrategyResult;
use crate::value::{vbs_min_from, Value};
use vstd::prelude::*;

verus! {

/// The outcome of a search that ran out of branches; carries the last
/// board examined, for diagnostics.
#[derive(Debug)]
pub struct Unsolvable(pub GameState);

/// Per-strategy enable flags; Naked Singles is always active.
pub struct DefaultSolverConfig {
    pub hidden_singles: bool,
    pub naked_twins: bool,
    pub hidden_twins: bool,
    pub xwings: bool,
}

impl Default for DefaultSolverConfig {
    fn default() -> (r: Self)
        ensures
            r.hidden_singles && r.naked_twins && r.hidden_twins && r.xwings,
    {
        DefaultSolverConfig { hidden_singles: true, naked_twins: true, hidden_twins: true, xwings: true }
    }
}

/// The most constrained cell seen so far during branch selection.
pub struct SmallestIndex {
    pub index: Index,
    pub size: usize,
}

impl Default for SmallestIndex {
    fn default() -> (r: Self)
        ensures
            r.index@ == 0,
            r.size == usize::MAX,
    {
        SmallestIndex { index: Index::new(0), size: usize::MAX }
    }
}

/// Powers of four, the termination currency of the search stack.
pub open spec fn pow4(n: nat) -> nat
    decreases n,
{
    if n == 0 {
        1
    } else {
        4 * pow4((n - 1) as nat)
    }
}

proof fn lemma_pow4_pos(n: nat)
    ensures
        pow4(n) >= 1,
    decreases n,
{
    if n > 0 {
        lemma_pow4_pos((n - 1) as nat);
    }
}

proof fn lemma_pow4_mono(m: nat, n: nat)
    requires
        m <= n,
    ensures
        pow4(m) <= pow4(n),
    decreases n,
{
    if m < n {
        lemma_pow4_mono(m, (n - 1) as nat);
        lemma_pow4_pos((n - 1) as nat);
    }
}

/// The potential of one stacked branch.
pub open spec fn entry_measure(e: StateStackEntry) -> nat {
    pow4(board_pot(e.state@) as nat)
}

/// The termination measure of the whole search stack.
pub open spec fn stack_measure(s: Seq<StateStackEntry>) -> nat
    decreases s.len(),
{
    if s.len() == 0 {
        0
    } else {
        stack_measure(s.drop_last()) + entry_measure(s.last())
    }
}

proof fn lemma_stack_measure_push(s: Seq<StateStackEntry>, e: StateStackEntry)
    ensures
        stack_measure(s.push(e)) == stack_measure(s) + entry_measure(e),
{
    assert(s.push(e).drop_last() =~= s);
    assert(s.push(e).last() == e);
}

/// The sum of candidate counts over the peers of a cell, counting only
/// undecided cells; the branch selection heuristic minimizes this.
pub open spec fn peer_sum_upto(s: Seq<GameCell>, groups: CellGroups, u: int, k: int) -> int
    decreases k,
{
    if k <= 0 {
        0
    } else {
        peer_sum_upto(s, groups, u, k - 1) + if groups.is_peer(u, k - 1) && s[k - 1].card() >= 2 {
            s[k - 1].card()
        } else {
            0int
        }
    }
}

pub open spec fn peer_sum(s: Seq<GameCell>, groups: CellGroups, u: int) -> int {
    peer_sum_upto(s, groups, u, 81)
}

proof fn lemma_peer_sum_upto_bounds(s: Seq<GameCell>, groups: CellGroups, u: int, k: int)
    requires
        board_wf(s),
        0 <= k <= 81,
    ensures
        0 <= peer_sum_upto(s, groups, u, k) <= 9 * k,
    decreases k,
{
    if k > 0 {
        lemma_peer_sum_upto_bounds(s, groups, u, k - 1);
        s[k - 1].possible_values.lemma_card_bounds();
    }
}

/// A cell that still has at least two candidates keeps its own peer sum
/// positive.
proof fn lemma_peer_sum_self(s: Seq<GameCell>, groups: CellGroups, u: int, k: int)
    requires
        board_wf(s),
        0 <= u < k <= 81,
        groups.is_peer(u, u),
        s[u].card() >= 2,
    ensures
        peer_sum_upto(s, groups, u, k) >= s[u].card(),
    decreases k,
{
    if k - 1 == u {
        lemma_peer_sum_upto_bounds(s, groups, u, k - 1);
    } else {
        lemma_peer_sum_self(s, groups, u, k - 1);
        s[k - 1].possible_values.lemma_card_bounds();
    }
}

/// The solver: a region topology plus the five deduction rules with
/// their enable flags.
///
/// The optional per-step diagnostic callback of earlier designs is
/// deliberately absent: a bare function pointer carries no contract, so
/// verified code could not discharge a call to it. Callers who want to
/// watch the search render boards around `solve` instead.
pub struct DefaultSolver {
    pub groups: CellGroups,
    pub naked_singles: NakedSingles,
    pub hidden_singles: HiddenSingles,
    pub naked_twins: NakedTwins,
    pub hidden_twins: HiddenTwins,
    pub xwings: XWing,
}

impl DefaultSolver {
    /// A usable solver topology covers every cell with a real peer.
    pub open spec fn wf(self) -> bool {
        self.groups.wf() && self.groups.peered()
    }

    /// A solver over the topology with every strategy enabled.
    pub fn new(groups: &CellGroups) -> (r: Self)
        requires
            groups.wf(),
            groups.peered(),
        ensures
            r.wf(),
            r.groups.groups@ == groups.groups@,
    {
        Self::new_with(groups, &DefaultSolverConfig::default())
    }

    /// A solver over the topology with the given strategy flags.
    pub fn new_with(groups: &CellGroups, config: &DefaultSolverConfig) -> (r: Self)
        requires
            groups.wf(),
            groups.peered(),
        ensures
            r.wf(),
            r.groups.groups@ == groups.groups@,
            r.hidden_singles.enabled == config.hidden_singles,
            r.naked_twins.enabled == config.naked_twins,
            r.hidden_twins.enabled == config.hidden_twins,
            r.xwings.enabled == config.xwings,
    {
        let cloned = groups.clone();
        proof {
            assert(cloned.wf()) by {
                assert forall|gt: crate::cell_group::CellGroupType, g: crate::cell_group::CellGroup|
                    #[trigger] cloned.tagged(gt).contains(g) <==> (cloned.groups@.contains(g)
                        && g.group_type == gt) by {
                    assert(cloned.tagged(gt) == groups.tagged(gt));
                }
            }
            assert(cloned.peered()) by {
                assert forall|i: int| 0 <= i < 81 implies cloned.has_peer(i) by {
                    assert(groups.has_peer(i));
                    let j = choose|j: int| j != i && groups.is_peer(i, j);
                    assert(groups.is_peer(i, j));
                    let g = choose|g: crate::cell_group::CellGroup|
                        #[trigger] groups.groups@.contains(g) && g.has(i) && g.has(j);
                    assert(cloned.groups@.contains(g) && g.has(i) && g.has(j));
                    assert(cloned.is_peer(i, j));
                }
            }
        }
        DefaultSolver {
            groups: cloned,
            naked_singles: NakedSingles {},
            hidden_singles: *HiddenSingles::new_box(config.hidden_singles),
            naked_twins: *NakedTwins::new_box(config.naked_twins),
            hidden_twins: *HiddenTwins::new_box(config.hidden_twins),
            xwings: *XWing::new_box(config.xwings),
        }
    }

    /// Runs the search: propagation to a fixed point, then a fork on the
    /// most constrained cell, depth first over an explicit stack.
    ///
    /// A returned board is always a genuine, consistent solution of the
    /// topology that only narrows the given clues, and an already solved
    /// board always comes back as a success. Exhausting every branch
    /// yields `Unsolvable` with the last board examined, itself a
    /// narrowing of the clues. That the search reaches a solution
    /// whenever one exists is not stated: on topologies with groups of
    /// fewer than nine cells the deduction rules may discard candidates
    /// a solution needs, so full completeness does not hold for every
    /// admissible topology; the tests exercise it on the standard ones.
    pub fn solve(&self, state: &GameState) -> (r: Result<GameState, Unsolvable>)
        requires
            self.wf(),
            state.wf(),
        ensures
            r matches Ok(b) ==> b.wf() && spec_solved(b@, self.groups) && spec_consistent(
                b@,
                self.groups,
            ) && board_le(b@, state@),
            r matches Err(u) ==> u.0.wf() && board_le(u.0@, state@),
            spec_solved(state@, self.groups) ==> r is Ok,
    {
        let mut last_seen_state = state.clone();
        let mut stack = StateStack::new_with(last_seen_state.clone());
        proof {
            assert(board_le(stack.stack@[0].state@, state@));
        }
        loop
            invariant
                self.wf(),
                state.wf(),
                stack.wf(),
                last_seen_state.wf(),
                board_le(last_seen_state@, state@),
                forall|k: int|
                    0 <= k < stack.stack@.len() ==> board_le(
                        (#[trigger] stack.stack@[k]).state@,
                        state@,
                    ),
                spec_solved(state@, self.groups) ==> stack.stack@.len() == 1
                    && stack.stack@[0].state@ == state@,
            ensures
                !spec_solved(state@, self.groups),
            decreases stack_measure(stack.stack@),
        {
            let popped = stack.pop();
            let ghost prepop = stack.stack@;
            let entry = match popped {
                Some(e) => e,
                None => {
                    proof {
                        if spec_solved(state@, self.groups) {
                            assert(false);
                        }
                    }
                    break;
                },
            };
            let ghost popmeasure = entry_measure(entry);
            proof {
                lemma_pow4_pos(board_pot(entry.state@) as nat);
            }
            proof {
                assert(board_le(entry.state@, state@)) by {
                    assert(board_le((stack.stack@.push(entry))[prepop.len() as int].state@, state@));
                }
            }
            let mut current = entry.state;
            last_seen_state = current.clone();
            proof {
                if spec_solved(state@, self.groups) {
                    assert(current@ == state@);
                }
            }
            if current.is_solved(&self.groups) {
                proof {
                    crate::game_state::lemma_solved_is_consistent(current@, self.groups);
                }
                return Ok(current);
            }
            proof {
                assert(!spec_solved(state@, self.groups));
            }
            proof {
                self.groups.lemma_peered_covered();
            }
            if !current.is_consistent(&self.groups) {
                continue;
            }
            let ghost branch_entry = current@;
            if self.apply_strategies(&mut current).is_err() {
                continue;
            }
            if current.is_solved(&self.groups) {
                proof {
                    lemma_board_le_trans(current@, branch_entry, state@);
                    crate::game_state::lemma_solved_is_consistent(current@, self.groups);
                }
                return Ok(current);
            }
            proof {
                lemma_board_le_trans(current@, branch_entry, state@);
            }
            let fork_index = match self.pick_index_to_fork_from(&current) {
                Some(index) => index,
                None => {
                    continue;
                },
            };
            let ghost after_prop = current@;
            let fork_cell = current.get_at_index(fork_index);
            // Pick the cell's lowest remaining candidate to fork on.
            let mut candidates = fork_cell.iter_candidates();
            proof {
                fork_cell.possible_values.lemma_card_bounds();
                crate::value::lemma_vbs_min_from_found(fork_cell.possible_values, 1);
                fork_cell.possible_values.lemma_card_zero();
                assert(vbs_min_from(fork_cell.possible_values, 1) <= 9) by {
                    if vbs_min_from(fork_cell.possible_values, 1) == 10 {
                        assert forall|w: int| !fork_cell.possible_values.has(w) by {
                            if fork_cell.possible_values.has(w) {
                                assert(1 <= w <= 9);
                            }
                        }
                        assert(false);
                    }
                }
            }
            let fork_value = match candidates.next() {
                Some(v) => v,
                None => {
                    proof {
                        assert(false);
                    }
                    Value::new(1)
                },
            };
            proof {
                assert(fork_cell.possible_values.has(fork_value@));
            }
            // Fork the board: one branch places the value, the other
            // forgets it.
            let mut forked = current.clone();
            forked.place_and_propagate_at_index(fork_index, fork_value, &self.groups);
            let ghost forked_snap = forked@;
            current.forget_at_index(fork_index, fork_value);
            proof {
                // Both successors carry strictly less potential than the
                // branch they split from.
                assert(board_le(current@, after_prop)) by {
                    assert forall|i: int, w: int|
                        0 <= i < 81 && (#[trigger] current@[i].has(w)) implies after_prop[i].has(
                        w,
                    ) by {}
                }
                assert(after_prop[fork_index@].has(fork_value@));
                assert(!current@[fork_index@].has(fork_value@));
                lemma_board_neq(after_prop, current@, fork_index@, fork_value@);
                lemma_board_pot_lt(current@, after_prop);
                assert(exists|w: int|
                    #[trigger] after_prop[fork_index@].has(w) && w != fork_value@) by {
                    let pv = after_prop[fork_index@].possible_values;
                    if forall|w: int| #[trigger] pv.has(w) ==> w == fork_value@ {
                        pv.lemma_card_single(fork_value@);
                        assert(false);
                    }
                    let w0 = choose|w: int| #[trigger] pv.has(w) && w != fork_value@;
                    assert(after_prop[fork_index@].has(w0) && w0 != fork_value@);
                }
                assert(board_le(forked_snap, after_prop)) by {
                    assert forall|i: int, w: int|
                        0 <= i < 81 && (#[trigger] forked_snap[i].has(w)) implies after_prop[i].has(
                        w,
                    ) by {
                        if i == fork_index@ {
                            assert(forked_snap[i].has(w) ==> w == fork_value@);
                        }
                    }
                }
                let w1 = choose|w: int|
                    #[trigger] after_prop[fork_index@].has(w) && w != fork_value@;
                assert(!forked_snap[fork_index@].has(w1));
                lemma_board_neq(after_prop, forked_snap, fork_index@, w1);
                lemma_board_pot_lt(forked_snap, after_prop);
                lemma_board_pot_le(after_prop, entry.state@);
                crate::game_state::lemma_board_pot_bounds(current@);
                crate::game_state::lemma_board_pot_bounds(forked_snap);
                crate::game_state::lemma_board_pot_bounds(entry.state@);
                assert(board_pot(current@) <= board_pot(entry.state@) - 1);
                assert(board_pot(forked_snap) <= board_pot(entry.state@) - 1);
            }
            proof {
                lemma_board_le_trans(current@, after_prop, state@);
                lemma_board_le_trans(forked_snap, after_prop, state@);
            }
            stack.push(current.clone());
            let ghost after_first = stack.stack@;
            proof {
                lemma_stack_measure_push(prepop, after_first.last());
                assert(after_first.drop_last() =~= prepop);
                lemma_pow4_mono(
                    board_pot(current@) as nat,
                    (board_pot(entry.state@) - 1) as nat,
                );
                assert forall|k: int|
                    0 <= k < stack.stack@.len() implies board_le(
                    (#[trigger] stack.stack@[k]).state@,
                    state@,
                ) by {
                    if k < prepop.len() {
                        assert(stack.stack@[k] == prepop[k]);
                    }
                }
            }
            proof {
                self.groups.lemma_peered_covered();
            }
            if forked.is_consistent(&self.groups) {
                let ghost before_second = stack.stack@;
                stack.push(forked);
                proof {
                    lemma_stack_measure_push(after_first, stack.stack@.last());
                    assert(stack.stack@.drop_last() =~= after_first);
                    assert forall|k: int|
                        0 <= k < stack.stack@.len() implies board_le(
                        (#[trigger] stack.stack@[k]).state@,
                        state@,
                    ) by {
                        if k < before_second.len() {
                            assert(stack.stack@[k] == before_second[k]);
                        }
                    }
                    lemma_pow4_mono(
                        board_pot(forked_snap) as nat,
                        (board_pot(entry.state@) - 1) as nat,
                    );
                    assert(pow4(board_pot(entry.state@) as nat) == 4 * pow4(
                        (board_pot(entry.state@) - 1) as nat,
                    ));
                }
            } else {
                proof {
                    lemma_pow4_pos((board_pot(entry.state@) - 1) as nat);
                    assert(pow4(board_pot(entry.state@) as nat) == 4 * pow4(
                        (board_pot(entry.state@) - 1) as nat,
                    ));
                }
            }
        }
        Err(Unsolvable(last_seen_state))
    }

    /// Applies the enabled strategies in ascending cost order until a
    /// full pass yields no change that demands a restart.
    ///
    /// Propagation only narrows the board; on success the board is
    /// consistent.
    pub fn apply_strategies(&self, state: &mut GameState) -> (r: Result<(), InvalidGameState>)
        requires
            self.wf(),
            old(state).wf(),
        ensures
            final(state).wf(),
            final(state)@.len() == 81,
            board_le(final(state)@, old(state)@),
            r is Ok ==> spec_consistent(final(state)@, self.groups),
            spec_solved(old(state)@, self.groups) ==> r is Ok && final(state)@ == old(state)@,
            (!self.hidden_singles.enabled && !self.naked_twins.enabled
                && !self.hidden_twins.enabled && !self.xwings.enabled) ==> (forall|
                b: Seq<GameCell>,
            |
                #[trigger] crate::game_state::embedded_solution(b, self.groups, old(state)@)
                    ==> board_le(b, final(state)@)),
    {
        proof {
            if spec_solved(old(state)@, self.groups) {
                crate::strategies::naked_singles::lemma_solved_naked_singles_stable(
                    old(state)@,
                    self.groups,
                );
                assert(crate::game_state::board_decided(old(state)@)) by {
                    assert forall|i: int| 0 <= i < 81 implies (#[trigger] old(state)@[i]).card()
                        <= 1 by {
                        assert(old(state)@[i].card() == 1);
                    }
                }
            }
        }
        loop
            invariant_except_break
                self.wf(),
                state.wf(),
                state@.len() == 81,
                board_le(state@, old(state)@),
                spec_solved(old(state)@, self.groups) ==> state@ == old(state)@
                    && crate::strategies::naked_singles::naked_singles_stable(
                    old(state)@,
                    self.groups,
                ) && crate::game_state::board_decided(old(state)@),
                (!self.hidden_singles.enabled && !self.naked_twins.enabled
                    && !self.hidden_twins.enabled && !self.xwings.enabled) ==> (forall|
                    b: Seq<GameCell>,
                |
                    #[trigger] crate::game_state::embedded_solution(b, self.groups, old(state)@)
                        ==> board_le(b, state@)),
            ensures
                self.wf(),
                state.wf(),
                state@.len() == 81,
                board_le(state@, old(state)@),
                spec_solved(old(state)@, self.groups) ==> state@ == old(state)@,
                (!self.hidden_singles.enabled && !self.naked_twins.enabled
                    && !self.hidden_twins.enabled && !self.xwings.enabled) ==> (forall|
                    b: Seq<GameCell>,
                |
                    #[trigger] crate::game_state::embedded_solution(b, self.groups, old(state)@)
                        ==> board_le(b, state@)),
            decreases board_pot(state@),
        {
            let ghost round_entry = state@;
            let ns_result = self.naked_singles.apply(state, &self.groups);
            if ns_result.is_err() {
                return Err(InvalidGameState {});
            }
            proof {
                lemma_board_le_trans(state@, round_entry, old(state)@);
                if !self.hidden_singles.enabled && !self.naked_twins.enabled
                    && !self.hidden_twins.enabled && !self.xwings.enabled {
                    assert forall|b: Seq<GameCell>|
                        #[trigger] crate::game_state::embedded_solution(
                            b,
                            self.groups,
                            old(state)@,
                        ) implies board_le(b, state@) by {
                        assert(board_le(b, round_entry));
                        assert(crate::game_state::embedded_solution(b, self.groups, round_entry));
                    }
                }
            }
            let ghost after_ns = state@;
            if self.hidden_singles.is_enabled() {
                let r = self.hidden_singles.apply(state, &self.groups);
                proof {
                    lemma_board_le_trans(state@, after_ns, round_entry);
                    lemma_board_le_trans(state@, round_entry, old(state)@);
                }
                match r {
                    Err(_) => {
                        return Err(InvalidGameState {});
                    },
                    Ok(StrategyResult::AppliedChange) => {
                        proof {
                            crate::game_state::lemma_board_pot_bounds(state@);
                            lemma_board_pot_lt(state@, after_ns);
                            lemma_board_pot_le(after_ns, round_entry);
                            assert(board_pot(state@) < board_pot(round_entry));
                        }
                        continue;
                    },
                    Ok(StrategyResult::NoChange) => {},
                }
            }
            let ghost after_hs = state@;
            if self.naked_twins.is_enabled() {
                let r = self.naked_twins.apply(state, &self.groups);
                proof {
                    lemma_board_le_trans(state@, after_hs, round_entry);
                    lemma_board_le_trans(state@, round_entry, old(state)@);
                }
                match r {
                    Err(_) => {
                        return Err(InvalidGameState {});
                    },
                    Ok(StrategyResult::AppliedChange) => {
                        proof {
                            crate::game_state::lemma_board_pot_bounds(state@);
                            assert(after_hs == after_ns);
                            lemma_board_pot_lt(state@, after_hs);
                            lemma_board_pot_le(after_ns, round_entry);
                            assert(board_pot(state@) < board_pot(round_entry));
                        }
                        continue;
                    },
                    Ok(StrategyResult::NoChange) => {},
                }
            }
            let ghost after_nt = state@;
            if self.hidden_twins.is_enabled() {
                let r = self.hidden_twins.apply(state, &self.groups);
                proof {
                    lemma_board_le_trans(state@, after_nt, round_entry);
                    lemma_board_le_trans(state@, round_entry, old(state)@);
                }
                match r {
                    Err(_) => {
                        return Err(InvalidGameState {});
                    },
                    Ok(StrategyResult::AppliedChange) => {
                        proof {
                            crate::game_state::lemma_board_pot_bounds(state@);
                            assert(after_nt == after_ns);
                            lemma_board_pot_lt(state@, after_nt);
                            lemma_board_pot_le(after_ns, round_entry);
                            assert(board_pot(state@) < board_pot(round_entry));
                        }
                        continue;
                    },
                    Ok(StrategyResult::NoChange) => {},
                }
            }
            let ghost after_ht = state@;
            if self.xwings.is_enabled() {
                let r = self.xwings.apply(state, &self.groups);
                proof {
                    lemma_board_le_trans(state@, after_ht, round_entry);
                    lemma_board_le_trans(state@, round_entry, old(state)@);
                }
                match r {
                    Err(_) => {
                        return Err(InvalidGameState {});
                    },
                    Ok(StrategyResult::AppliedChange) => {
                        proof {
                            crate::game_state::lemma_board_pot_bounds(state@);
                            assert(after_ht == after_ns);
                            lemma_board_pot_lt(state@, after_ht);
                            lemma_board_pot_le(after_ns, round_entry);
                            assert(board_pot(state@) < board_pot(round_entry));
                        }
                        continue;
                    },
                    Ok(StrategyResult::NoChange) => {},
                }
            }
            break;
        }
        proof {
            self.groups.lemma_peered_covered();
            if spec_solved(old(state)@, self.groups) {
                crate::game_state::lemma_solved_is_consistent(state@, self.groups);
            }
        }
        if state.is_consistent(&self.groups) {
            Ok(())
        } else {
            Err(InvalidGameState {})
        }
    }

    /// Minimum-remaining-value branch selection, scoped by peer sets:
    /// picks the most constrained cell of the peer neighborhood with the
    /// smallest total count of open candidates; ties fall to the lowest
    /// index.
    ///
    /// A returned cell is exactly the one the heuristic describes; no
    /// cell is returned exactly when every peer neighborhood is fully
    /// decided.
    pub fn pick_index_to_fork_from(&self, state: &GameState) -> (r: Option<Index>)
        requires
            self.wf(),
            state.wf(),
        ensures
            r matches Some(i) ==> i.wf() && state@[i@].card() >= 2 && (exists|u: int|
                #[trigger] mrv_selects(state@, self.groups, u, i@)),
            r is None <==> (forall|u: int|
                0 <= u < 81 ==> peer_sum(state@, self.groups, u) == 0),
    {
        let mut smallest = SmallestIndex::default();
        let ghost mut found_any = false;
        let ghost mut u_star: int = 0;
        let mut iut: u8 = 0;
        while iut < 81
            invariant
                0 <= iut <= 81,
                self.wf(),
                state.wf(),
                smallest.size == usize::MAX <==> !found_any,
                !found_any ==> (forall|u: int|
                    0 <= u < iut ==> peer_sum(state@, self.groups, u) == 0),
                found_any ==> ({
                    &&& 0 <= u_star < iut as int
                    &&& peer_sum(state@, self.groups, u_star) == smallest.size
                    &&& smallest.size > 0
                    &&& forall|v: int|
                        0 <= v < iut as int && #[trigger] peer_sum(state@, self.groups, v) > 0
                            ==> smallest.size <= peer_sum(state@, self.groups, v)
                    &&& forall|v: int|
                        0 <= v < u_star && #[trigger] peer_sum(state@, self.groups, v) > 0
                            ==> smallest.size < peer_sum(state@, self.groups, v)
                    &&& smallest.index.wf()
                    &&& self.groups.is_peer(u_star, smallest.index@)
                    &&& state@[smallest.index@].card() >= 2
                    &&& forall|j: int|
                        0 <= j < 81 && self.groups.is_peer(u_star, j) && (#[trigger] state@[j].card())
                            >= 2 ==> state@[smallest.index@].card() <= state@[j].card()
                    &&& forall|j: int|
                        0 <= j < smallest.index@ && self.groups.is_peer(u_star, j) && (
                        #[trigger] state@[j].card()) >= 2 ==> state@[smallest.index@].card()
                            < state@[j].card()
                }),
            decreases 81 - iut,
        {
            let idx = Index::new(iut);
            let peers_r = self.groups.get_peers_at_index(idx, CollectIndexes::IncludeSelf);
            proof {
                assert(peers_r is Ok) by {
                    assert(self.groups.has_peer(iut as int));
                    let j = choose|j: int| j != iut as int && self.groups.is_peer(iut as int, j);
                    let g = choose|g: crate::cell_group::CellGroup|
                        #[trigger] self.groups.groups@.contains(g) && g.has(iut as int) && g.has(
                            j,
                        );
                    assert(self.groups.is_peer(iut as int, iut as int));
                    assert(self.groups.is_peer(iut as int, iut as int) && (
                    CollectIndexes::IncludeSelf == CollectIndexes::ExcludeSelf
                        ==> iut as int != iut as int));
                }
            }
            let peers = match peers_r {
                Ok(p) => p,
                Err(_) => {
                    proof {
                        assert(false);
                    }
                    IndexBitSet::empty()
                },
            };
            let mut group_size: usize = 0;
            let mut group_smallest = SmallestIndex::default();
            let mut j: u8 = 0;
            while j < 81
                invariant
                    0 <= j <= 81,
                    iut < 81,
                    self.wf(),
                    state.wf(),
                    peers.wf(),
                    forall|k: int|
                        #[trigger] peers.has(k) <==> self.groups.is_peer(iut as int, k),
                    group_size == peer_sum_upto(state@, self.groups, iut as int, j as int),
                    group_size <= 9 * j,
                    group_size > 0 ==> group_smallest.size != usize::MAX,
                    group_smallest.size == usize::MAX ==> (forall|k: int|
                        0 <= k < j as int && self.groups.is_peer(iut as int, k) ==> (
                        #[trigger] state@[k].card()) < 2),
                    group_smallest.size != usize::MAX ==> ({
                        &&& group_smallest.index.wf()
                        &&& group_smallest.index@ < j as int
                        &&& self.groups.is_peer(iut as int, group_smallest.index@)
                        &&& state@[group_smallest.index@].card() == group_smallest.size
                        &&& group_smallest.size >= 2
                        &&& forall|k: int|
                            0 <= k < j as int && self.groups.is_peer(iut as int, k) && (
                            #[trigger] state@[k].card()) >= 2 ==> group_smallest.size
                                <= state@[k].card()
                        &&& forall|k: int|
                            0 <= k < group_smallest.index@ && self.groups.is_peer(iut as int, k)
                                && (#[trigger] state@[k].card()) >= 2 ==> group_smallest.size
                                < state@[k].card()
                    }),
                decreases 81 - j,
            {
                let jdx = Index::new(j);
                if peers.contains(jdx) {
                    let index_size = state.get_at_index(jdx).len();
                    if index_size <= 1 {
                        proof {
                            assert(!(self.groups.is_peer(iut as int, j as int) && state@[j
                                as int].card() >= 2));
                        }
                    } else {
                        proof {
                            state@[j as int].possible_values.lemma_card_bounds();
                        }
                        group_size = group_size + index_size;
                        let ghost old_gs = group_smallest;
                        if index_size < group_smallest.size {
                            group_smallest = SmallestIndex { index: jdx, size: index_size };
                        }
                        proof {
                            if old_gs.size == usize::MAX {
                                assert(group_smallest.index@ == j as int);
                                assert forall|k: int|
                                    0 <= k < group_smallest.index@ && self.groups.is_peer(
                                        iut as int,
                                        k,
                                    ) && (#[trigger] state@[k].card()) >= 2 implies
                                    group_smallest.size < state@[k].card() by {
                                    assert(state@[k].card() < 2);
                                }
                            }
                        }
                    }
                } else {
                    proof {
                        assert(!self.groups.is_peer(iut as int, j as int));
                    }
                }
                j = j + 1;
            }
            if group_size < smallest.size && group_size > 0 {
                proof {
                    if found_any {
                        assert forall|v: int|
                            0 <= v < iut as int && #[trigger] peer_sum(state@, self.groups, v)
                                > 0 implies group_size < peer_sum(state@, self.groups, v) by {}
                    }
                    found_any = true;
                    u_star = iut as int;
                }
                smallest = SmallestIndex { index: group_smallest.index, size: group_size };
            } else {
                proof {
                    if !found_any {
                        assert(group_size == 0 || group_size >= smallest.size);
                        assert(peer_sum(state@, self.groups, iut as int) == 0);
                    }
                }
            }
            iut = iut + 1;
        }
        proof {
            if found_any {
                assert(mrv_selects(state@, self.groups, u_star, smallest.index@));
            }
        }
        if smallest.size != usize::MAX {
            Some(smallest.index)
        } else {
            None
        }
    }
}

/// The heuristic's choice: the peer neighborhood of `u` has the first
/// smallest positive total of open candidates, and `i` is the first
/// most-constrained undecided cell inside it.
pub open spec fn mrv_selects(s: Seq<GameCell>, groups: CellGroups, u: int, i: int) -> bool {
    &&& 0 <= u < 81
    &&& 0 <= i < 81
    &&& peer_sum(s, groups, u) > 0
    &&& forall|v: int|
        0 <= v < 81 && #[trigger] peer_sum(s, groups, v) > 0 ==> peer_sum(s, groups, u) <= peer_sum(
            s,
            groups,
            v,
        )
    &&& forall|v: int|
        0 <= v < u && #[trigger] peer_sum(s, groups, v) > 0 ==> peer_sum(s, groups, u) < peer_sum(
            s,
            groups,
            v,
        )
    &&& groups.is_peer(u, i)
    &&& s[i].card() >= 2
    &&& forall|j: int|
        0 <= j < 81 && groups.is_peer(u, j) && (#[trigger] s[j].card()) >= 2 ==> s[i].card()
            <= s[j].card()
    &&& forall|j: int|
        0 <= j < i && groups.is_peer(u, j) && (#[trigger] s[j].card()) >= 2 ==> s[i].card()
            < s[j].card()
}

} // verus!
