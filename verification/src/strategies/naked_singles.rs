//! The Naked Singles rule: a solved cell rules its value out everywhere
//! among its peers.

use crate::cell_group::{CellGroups, CollectIndexes};
use crate::game_cell::GameCell;
use crate::game_state::{board_le, board_pot, embedded_solution, lemma_board_neq,
    lemma_board_pot_le, lemma_board_pot_lt, GameState, InvalidGameState};
use crate::index::{Index, IndexBitSet};
use crate::strategies::StrategyResult;
use vstd::prelude::*;

verus! {

/// A board is stable for Naked Singles when no peer of a solved cell
/// still carries the solved value. On such a board the rule has nothing
/// left to do.
pub open spec fn naked_singles_stable(s: Seq<GameCell>, groups: CellGroups) -> bool {
    forall|i: int, j: int, w: int|
        #![trigger s[i].has(w), groups.is_peer(i, j)]
        0 <= i < 81 && 0 <= j < 81 && j != i && s[i].card() == 1 && s[i].has(w) && groups.is_peer(
            i,
            j,
        ) ==> !s[j].has(w)
}

/// A solved board is stable for Naked Singles: peers of a solved cell
/// never carry its value.
pub proof fn lemma_solved_naked_singles_stable(s: Seq<GameCell>, groups: CellGroups)
    requires
        crate::game_state::spec_solved(s, groups),
    ensures
        naked_singles_stable(s, groups),
{
    assert forall|i: int, j: int, w: int|
        #![trigger s[i].has(w), groups.is_peer(i, j)]
        0 <= i < 81 && 0 <= j < 81 && j != i && s[i].card() == 1 && s[i].has(w) && groups.is_peer(
            i,
            j,
        ) implies !s[j].has(w) by {
        assert(crate::game_state::cells_disjoint(s[i], s[j]));
    }
}

/// Identifies and realizes naked singles.
///
/// Other strategies may collapse the candidate space of a cell into a
/// singular value without propagating the move to the board. This
/// strategy does just that: identify singles and ensure they are
/// correctly propagated.
pub struct NakedSingles {}

impl NakedSingles {
    pub fn new_box() -> (r: Box<Self>) {
        Box::new(NakedSingles {})
    }

    /// Naked Singles is always active.
    pub fn is_enabled(&self) -> (r: bool)
        ensures
            r,
    {
        true
    }

    /// A change from this rule never requires the solving loop to restart.
    pub fn always_continue(&self) -> (r: bool)
        ensures
            r,
    {
        true
    }

    /// Removes every solved cell's value from that cell's peers, then
    /// repeats until a whole pass changes nothing, so that one call
    /// always leaves a stable board: running the rule twice in a row
    /// never produces a further change.
    ///
    /// The rule only erases candidates, reports a change exactly when
    /// the board changed, and reports no change exactly on boards
    /// already stable for it.
    pub fn apply(&self, state: &mut GameState, groups: &CellGroups) -> (r: Result<
        StrategyResult,
        InvalidGameState,
    >)
        requires
            old(state).wf(),
            groups.wf(),
            groups.peered(),
        ensures
            final(state).wf(),
            final(state)@.len() == 81,
            board_le(final(state)@, old(state)@),
            r is Ok,
            r == Ok::<StrategyResult, InvalidGameState>(StrategyResult::NoChange) <==> final(state)@ == old(state)@,
            r == Ok::<StrategyResult, InvalidGameState>(StrategyResult::NoChange)
                <==> naked_singles_stable(old(state)@, *groups),
            naked_singles_stable(final(state)@, *groups),
            forall|b: Seq<GameCell>|
                #[trigger] embedded_solution(b, *groups, old(state)@) ==> board_le(
                    b,
                    final(state)@,
                ),
    {
        let mut applied = false;
        loop
            invariant_except_break
                state.wf(),
                state@.len() == 81,
                groups.wf(),
                groups.peered(),
                board_le(state@, old(state)@),
                !applied ==> state@ == old(state)@,
                applied ==> board_pot(state@) < board_pot(old(state)@) && state@ != old(state)@,
                naked_singles_stable(old(state)@, *groups) ==> !applied,
                forall|b: Seq<GameCell>|
                    #[trigger] embedded_solution(b, *groups, old(state)@) ==> board_le(b, state@),
            ensures
                state.wf(),
                state@.len() == 81,
                board_le(state@, old(state)@),
                naked_singles_stable(state@, *groups),
                !applied ==> state@ == old(state)@,
                applied ==> state@ != old(state)@,
                naked_singles_stable(old(state)@, *groups) ==> !applied,
                forall|b: Seq<GameCell>|
                    #[trigger] embedded_solution(b, *groups, old(state)@) ==> board_le(b, state@),
            decreases board_pot(state@),
        {
            let ghost entry = state@;
            let pass_result = self.apply_pass(state, groups);
            proof {
                assert forall|b: Seq<GameCell>|
                    #[trigger] embedded_solution(b, *groups, old(state)@) implies board_le(
                    b,
                    state@,
                ) by {
                    assert(board_le(b, entry));
                    assert(embedded_solution(b, *groups, entry));
                }
            }
            match pass_result {
                Ok(StrategyResult::NoChange) => {
                    proof {
                        assert(state@ == entry);
                        assert(naked_singles_stable(state@, *groups));
                    }
                    break;
                },
                Ok(StrategyResult::AppliedChange) => {
                    proof {
                        crate::game_state::lemma_board_pot_bounds(state@);
                        lemma_board_pot_lt(state@, entry);
                        if applied {
                            lemma_board_pot_le(entry, old(state)@);
                        }
                        assert(state@ != old(state)@) by {
                            lemma_board_pot_le(entry, old(state)@);
                        }
                    }
                    applied = true;
                },
                Err(_) => {
                    proof {
                        assert(false);
                    }
                },
            }
        }
        if applied {
            Ok(StrategyResult::AppliedChange)
        } else {
            Ok(StrategyResult::NoChange)
        }
    }

    /// One pass: propagates each cell solved at the moment the pass
    /// reaches it. A cell solved mid-pass behind the cursor is only
    /// propagated by the next pass.
    fn apply_pass(&self, state: &mut GameState, groups: &CellGroups) -> (r: Result<
        StrategyResult,
        InvalidGameState,
    >)
        requires
            old(state).wf(),
            groups.wf(),
            groups.peered(),
        ensures
            final(state).wf(),
            final(state)@.len() == 81,
            board_le(final(state)@, old(state)@),
            r is Ok,
            r == Ok::<StrategyResult, InvalidGameState>(StrategyResult::NoChange) <==> final(state)@ == old(state)@,
            r == Ok::<StrategyResult, InvalidGameState>(StrategyResult::NoChange)
                <==> naked_singles_stable(old(state)@, *groups),
            forall|b: Seq<GameCell>|
                #[trigger] embedded_solution(b, *groups, old(state)@) ==> board_le(
                    b,
                    final(state)@,
                ),
    {
        let mut observed_singles = IndexBitSet::empty();
        let mut removed_some = false;
        let ghost mut wit_j: int = 0;
        let ghost mut wit_w: int = 0;
        let mut iut: u8 = 0;
        while iut < 81
            invariant
                0 <= iut <= 81,
                state.wf(),
                state@.len() == 81,
                groups.wf(),
                groups.peered(),
                observed_singles.wf(),
                forall|k: int| #[trigger] observed_singles.has(k) <==> 0 <= k < iut,
                board_le(state@, old(state)@),
                !removed_some ==> state@ == old(state)@,
                removed_some ==> 0 <= wit_j < 81 && old(state)@[wit_j].has(wit_w)
                    && !state@[wit_j].has(wit_w),
                naked_singles_stable(old(state)@, *groups) ==> !removed_some,
                forall|b: Seq<GameCell>|
                    #[trigger] embedded_solution(b, *groups, old(state)@) ==> board_le(b, state@),
                !removed_some ==> (forall|i: int, j: int, w: int|
                    #![trigger old(state)@[i].has(w), groups.is_peer(i, j)]
                    0 <= i < iut && 0 <= j < 81 && j != i && old(state)@[i].card() == 1 && old(state)@[i].has(w) && groups.is_peer(i, j) ==> !old(state)@[j].has(w)),
            decreases 81 - iut,
        {
            let idx = Index::new(iut);
            let fresh = observed_singles.try_insert(idx);
            if !fresh {
                proof {
                    assert(false);
                }
                iut = iut + 1;
                continue;
            }
            let cell_under_test = state.get_at_index(idx);
            if !cell_under_test.is_solved() {
                iut = iut + 1;
                continue;
            }
            let peers_r = groups.get_peers_at_index(idx, CollectIndexes::ExcludeSelf);
            proof {
                assert(groups.has_peer(iut as int));
                assert(peers_r is Ok) by {
                    let j = choose|j: int| j != iut as int && groups.is_peer(iut as int, j);
                    assert(groups.is_peer(iut as int, j) && (CollectIndexes::ExcludeSelf
                        == CollectIndexes::ExcludeSelf ==> j != iut as int));
                }
            }
            let peers = match peers_r {
                Ok(p) => p,
                Err(_) => {
                    proof {
                        assert(false);
                    }
                    IndexBitSet::empty()
                },
            };
            let cell_set = cell_under_test.to_bitset();
            let ghost entry = state@;
            let mut applied_single = false;
            let ghost mut inner_wit_j: int = 0;
            let ghost mut inner_wit_w: int = 0;
            let mut j: u8 = 0;
            while j < 81
                invariant
                    0 <= j <= 81,
                    iut < 81,
                    state.wf(),
                    state@.len() == 81,
                    entry.len() == 81,
                    groups.wf(),
                    peers.wf(),
                    cell_set.wf(),
                    cell_set == entry[iut as int].possible_values,
                    entry[iut as int].card() == 1,
                    forall|k: int|
                        #[trigger] peers.has(k) <==> (groups.is_peer(iut as int, k) && k
                            != iut as int),
                    board_le(state@, entry),
                    state@[iut as int] == entry[iut as int],
                    !applied_single ==> state@ == entry,
                    applied_single ==> 0 <= inner_wit_j < 81 && entry[inner_wit_j].has(inner_wit_w)
                        && !state@[inner_wit_j].has(inner_wit_w),
                    (naked_singles_stable(old(state)@, *groups) && entry == old(state)@)
                        ==> !applied_single,
                    forall|b: Seq<GameCell>|
                        #[trigger] embedded_solution(b, *groups, old(state)@) ==> board_le(
                            b,
                            state@,
                        ),
                    !applied_single ==> (forall|k: int, w: int|
                        #![trigger peers.has(k), cell_set.has(w)]
                        0 <= k < j && peers.has(k) && cell_set.has(w) ==> !entry[k].has(w)),
                decreases 81 - j,
            {
                if j == iut {
                    j = j + 1;
                    continue;
                }
                let jdx = Index::new(j);
                if peers.contains(jdx) {
                    let ghost before = state@;
                    let removed = state.forget_many_at_index(jdx, cell_set);
                    proof {
                        // A solution never loses a candidate here: the
                        // erased values are the solved value of a peer,
                        // which the solution cannot repeat.
                        assert forall|b: Seq<GameCell>|
                            #[trigger] embedded_solution(b, *groups, old(state)@) implies board_le(
                            b,
                            state@,
                        ) by {
                            assert(board_le(b, before));
                            assert forall|i: int, w: int|
                                0 <= i < 81 && (#[trigger] b[i].has(w)) implies state@[i].has(
                                w,
                            ) by {
                                if i == j as int && !state@[i].has(w) {
                                    assert(before[i].has(w) && cell_set.has(w));
                                    entry[iut as int].possible_values.lemma_card_one();
                                    let v0 = choose|v: int|
                                        entry[iut as int].possible_values.has(v) && (forall|
                                            ww: int,
                                        |
                                            entry[iut as int].possible_values.has(ww) ==> ww
                                                == v);
                                    assert(w == v0);
                                    b[iut as int].possible_values.lemma_card_one();
                                    let u0 = choose|v: int|
                                        b[iut as int].possible_values.has(v) && (forall|ww: int|
                                            b[iut as int].possible_values.has(ww) ==> ww == v);
                                    assert(b[iut as int].has(u0));
                                    assert(state@[iut as int].has(u0));
                                    assert(entry[iut as int].has(u0));
                                    assert(u0 == v0);
                                    assert(groups.is_peer(iut as int, j as int));
                                    assert(crate::game_state::cells_disjoint(
                                        b[iut as int],
                                        b[j as int],
                                    ));
                                    assert(!(b[iut as int].has(u0) && b[j as int].has(u0)));
                                    assert(false);
                                }
                            }
                        }
                        if removed {
                            let w = choose|w: int| before[j as int].has(w) && cell_set.has(w);
                            if !applied_single {
                                inner_wit_j = j as int;
                                inner_wit_w = w;
                            }
                            assert(!state@[inner_wit_j].has(inner_wit_w));
                            if naked_singles_stable(old(state)@, *groups) && entry == old(state)@ {
                                assert(entry[iut as int].has(w));
                                assert(groups.is_peer(iut as int, j as int));
                                assert(!entry[j as int].has(w));
                                assert(false);
                            }
                        }
                        assert(board_le(state@, entry)) by {
                            assert forall|i: int, w: int|
                                0 <= i < 81 && (#[trigger] state@[i].has(w)) implies entry[i].has(
                                w,
                            ) by {
                                assert(before[i].has(w));
                            }
                        }
                    }
                    applied_single = applied_single || removed;
                } else {
                    proof {
                        assert(!peers.has(j as int));
                    }
                }
                j = j + 1;
            }
            proof {
                if removed_some || applied_single {
                    if !removed_some {
                        wit_j = inner_wit_j;
                        wit_w = inner_wit_w;
                    }
                }
                if !removed_some && !applied_single {
                    assert forall|i: int, jj: int, w: int|
                        #![trigger old(state)@[i].has(w), groups.is_peer(i, jj)]
                        0 <= i < iut + 1 && 0 <= jj < 81 && jj != i && old(state)@[i].card() == 1
                            && old(state)@[i].has(w) && groups.is_peer(i, jj) implies !old(state)@[jj].has(w) by {
                        if i == iut as int {
                            assert(peers.has(jj));
                            assert(cell_set.has(w));
                            assert(!entry[jj].has(w));
                        }
                    }
                }
            }
            removed_some = removed_some || applied_single;
            iut = iut + 1;
        }
        proof {
            if removed_some {
                lemma_board_neq(old(state)@, state@, wit_j, wit_w);
            } else {
                assert(naked_singles_stable(old(state)@, *groups)) by {
                    assert forall|i: int, j: int, w: int|
                        #![trigger old(state)@[i].has(w), groups.is_peer(i, j)]
                        0 <= i < 81 && 0 <= j < 81 && j != i && old(state)@[i].card() == 1 && old(state)@[i].has(w) && groups.is_peer(i, j) implies !old(state)@[j].has(w) by {}
                }
            }
        }
        if removed_some {
            Ok(StrategyResult::AppliedChange)
        } else {
            Ok(StrategyResult::NoChange)
        }
    }
}

impl Default for NakedSingles {
    fn default() -> (r: Self) {
        NakedSingles {}
    }
}

} // verus!
