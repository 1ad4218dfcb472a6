//! The Hidden Singles rule: a candidate that survives subtracting all
//! same-type peers is the only legal placement for its cell.

use crate::cell_group::{CellGroupType, CellGroups};
use crate::game_cell::GameCell;
use crate::game_state::{board_decided, board_le, lemma_board_neq, lemma_staged_change, GameState,
    InvalidGameState};
use crate::index::Index;
use crate::strategies::StrategyResult;
use vstd::prelude::*;

verus! {

/// The value `w` survives at cell `u`: the cell still carries it and no
/// same-type peer does.
pub open spec fn hs_survives(
    s: Seq<GameCell>,
    groups: CellGroups,
    gt: CellGroupType,
    u: int,
    w: int,
) -> bool {
    s[u].has(w) && (forall|k: int|
        k != u && #[trigger] groups.is_typed_peer(gt, u, k) ==> !s[k].has(w))
}

/// The cell `u` holds a hidden single: it is undecided and exactly one
/// of its candidates survives subtracting its same-type peers.
pub open spec fn hidden_single_at(
    s: Seq<GameCell>,
    groups: CellGroups,
    gt: CellGroupType,
    u: int,
) -> bool {
    &&& 0 <= u < 81
    &&& s[u].card() >= 2
    &&& exists|v: int|
        #[trigger] hs_survives(s, groups, gt, u, v) && (forall|w: int|
            #[trigger] hs_survives(s, groups, gt, u, w) ==> w == v)
}

/// A board is stable for Hidden Singles of one group type when no cell
/// holds a hidden single; the rule has nothing left to do on it.
pub open spec fn hidden_singles_stable(s: Seq<GameCell>, groups: CellGroups, gt: CellGroupType)
    -> bool {
    forall|u: int| 0 <= u < 81 ==> !#[trigger] hidden_single_at(s, groups, gt, u)
}

/// A fully decided board holds no hidden single.
pub proof fn lemma_decided_hidden_singles_stable(
    s: Seq<GameCell>,
    groups: CellGroups,
    gt: CellGroupType,
)
    requires
        board_decided(s),
    ensures
        hidden_singles_stable(s, groups, gt),
{
    assert forall|u: int| 0 <= u < 81 implies !hidden_single_at(s, groups, gt, u) by {
        assert(s[u].card() <= 1);
    }
}

/// Identifies and realizes hidden singles.
///
/// A single is a value that does not appear in any other cell. It is
/// hidden when it appears along other values. Given two cells with the
/// values `3 4` and `3 4 7`, `7` is the hidden single: since it only
/// appears in the second cell, it must be placed there.
pub struct HiddenSingles {
    pub enabled: bool,
}

impl HiddenSingles {
    pub fn new_box(enabled: bool) -> (r: Box<Self>)
        ensures
            r.enabled == enabled,
    {
        Box::new(HiddenSingles { enabled })
    }

    pub fn is_enabled(&self) -> (r: bool)
        ensures
            r == self.enabled,
    {
        self.enabled
    }

    /// A change from this rule restarts the solving loop.
    pub fn always_continue(&self) -> (r: bool)
        ensures
            !r,
    {
        false
    }

    /// Runs the rule once per group type.
    ///
    /// The rule only places values that were still candidates, so it can
    /// only shrink the board; it reports no change exactly when the
    /// board held no hidden single of any group type, which is also
    /// exactly when the board is unchanged.
    pub fn apply(&self, state: &mut GameState, groups: &CellGroups) -> (r: Result<
        StrategyResult,
        InvalidGameState,
    >)
        requires
            old(state).wf(),
            groups.wf(),
            groups.peered(),
        ensures
            final(state).wf(),
            final(state)@.len() == 81,
            board_le(final(state)@, old(state)@),
            r is Ok,
            r == Ok::<StrategyResult, InvalidGameState>(StrategyResult::NoChange) <==> final(state)@ == old(state)@,
            r == Ok::<StrategyResult, InvalidGameState>(StrategyResult::NoChange) <==> (
            hidden_singles_stable(old(state)@, *groups, CellGroupType::Custom)
                && hidden_singles_stable(old(state)@, *groups, CellGroupType::StandardBlock)
                && hidden_singles_stable(old(state)@, *groups, CellGroupType::StandardRow)
                && hidden_singles_stable(old(state)@, *groups, CellGroupType::StandardColumn)),
            board_decided(old(state)@) ==> r == Ok::<StrategyResult, InvalidGameState>(
                StrategyResult::NoChange,
            ),
    {
        let mut applied = false;
        let ghost s0 = state@;
        let r1 = self.apply_in_group(state, groups, CellGroupType::Custom);
        applied = applied || matches!(r1, Ok(StrategyResult::AppliedChange));
        let ghost s1 = state@;
        let r2 = self.apply_in_group(state, groups, CellGroupType::StandardBlock);
        applied = applied || matches!(r2, Ok(StrategyResult::AppliedChange));
        let ghost s2 = state@;
        let r3 = self.apply_in_group(state, groups, CellGroupType::StandardRow);
        applied = applied || matches!(r3, Ok(StrategyResult::AppliedChange));
        let ghost s3 = state@;
        let r4 = self.apply_in_group(state, groups, CellGroupType::StandardColumn);
        applied = applied || matches!(r4, Ok(StrategyResult::AppliedChange));
        let ghost s4 = state@;
        proof {
            lemma_staged_change(s0, s1, s2, s3, s4);
            if !applied {
                assert(s1 == s0 && s2 == s0 && s3 == s0 && s4 == s0);
            }
            if board_decided(old(state)@) {
                lemma_decided_hidden_singles_stable(s0, *groups, CellGroupType::Custom);
                lemma_decided_hidden_singles_stable(s0, *groups, CellGroupType::StandardBlock);
                lemma_decided_hidden_singles_stable(s0, *groups, CellGroupType::StandardRow);
                lemma_decided_hidden_singles_stable(s0, *groups, CellGroupType::StandardColumn);
            }
        }
        if applied {
            Ok(StrategyResult::AppliedChange)
        } else {
            Ok(StrategyResult::NoChange)
        }
    }

    /// Applies the rule for the peers of one group type.
    ///
    /// It reports no change exactly when the board held no hidden single
    /// of this group type, which is also exactly when it is unchanged.
    pub fn apply_in_group(
        &self,
        state: &mut GameState,
        groups: &CellGroups,
        group_type: CellGroupType,
    ) -> (r: Result<StrategyResult, InvalidGameState>)
        requires
            old(state).wf(),
            groups.wf(),
            groups.peered(),
        ensures
            final(state).wf(),
            final(state)@.len() == 81,
            board_le(final(state)@, old(state)@),
            r is Ok,
            r == Ok::<StrategyResult, InvalidGameState>(StrategyResult::NoChange) <==> final(state)@ == old(state)@,
            r == Ok::<StrategyResult, InvalidGameState>(StrategyResult::NoChange)
                <==> hidden_singles_stable(old(state)@, *groups, group_type),
            board_decided(old(state)@) ==> r == Ok::<StrategyResult, InvalidGameState>(
                StrategyResult::NoChange,
            ),
    {
        let mut applied_some = false;
        let ghost mut wit_j: int = 0;
        let ghost mut wit_w: int = 0;
        let mut iut: u8 = 0;
        while iut < 81
            invariant
                0 <= iut <= 81,
                state.wf(),
                state@.len() == 81,
                groups.wf(),
                groups.peered(),
                board_le(state@, old(state)@),
                !applied_some ==> state@ == old(state)@,
                applied_some ==> 0 <= wit_j < 81 && old(state)@[wit_j].has(wit_w)
                    && !state@[wit_j].has(wit_w),
                !applied_some ==> (forall|u: int|
                    0 <= u < iut ==> !#[trigger] hidden_single_at(
                        old(state)@,
                        *groups,
                        group_type,
                        u,
                    )),
                hidden_singles_stable(old(state)@, *groups, group_type) ==> !applied_some,
            decreases 81 - iut,
        {
            let idx = Index::new(iut);
            let cell_under_test = state.get_at_index(idx);
            let cell_len = cell_under_test.len();
            if cell_len <= 1 {
                proof {
                    if !applied_some {
                        assert(!hidden_single_at(old(state)@, *groups, group_type, iut as int));
                    }
                }
                iut = iut + 1;
                continue;
            }
            let mut values = cell_under_test.to_bitset();
            let peer_indexes = groups.get_peer_indexes(idx, group_type);
            let mut j: u8 = 0;
            while j < 81
                invariant
                    0 <= j <= 81,
                    iut < 81,
                    state.wf(),
                    state@.len() == 81,
                    groups.wf(),
                    peer_indexes.wf(),
                    values.wf(),
                    forall|k: int|
                        #[trigger] peer_indexes.has(k) <==> groups.is_typed_peer(
                            group_type,
                            iut as int,
                            k,
                        ),
                    forall|w: int|
                        #[trigger] values.has(w) <==> (state@[iut as int].has(w) && (forall|k: int|
                            0 <= k < j as int && k != iut as int && #[trigger] groups.is_typed_peer(
                                group_type,
                                iut as int,
                                k,
                            ) ==> !state@[k].has(w))),
                decreases 81 - j,
            {
                if j != iut {
                    let jdx = Index::new(j);
                    if peer_indexes.contains(jdx) {
                        let peer = state.get_at_index(jdx);
                        let ghost vbefore = values;
                        values.remove_many(&peer.to_bitset());
                        proof {
                            assert forall|w: int|
                                #[trigger] values.has(w) <==> (state@[iut as int].has(w) && (
                            forall|k: int|
                                0 <= k < j as int + 1 && k != iut as int
                                    && #[trigger] groups.is_typed_peer(group_type, iut as int, k)
                                    ==> !state@[k].has(w))) by {
                                assert(values.has(w) <==> (vbefore.has(w) && !peer.possible_values.has(
                                    w,
                                )));
                                if values.has(w) {
                                    assert forall|k: int|
                                        0 <= k < j as int + 1 && k != iut as int
                                            && #[trigger] groups.is_typed_peer(
                                            group_type,
                                            iut as int,
                                            k,
                                        ) implies !state@[k].has(w) by {
                                        if k == j as int {
                                            assert(!peer.possible_values.has(w));
                                        }
                                    }
                                }
                            }
                        }
                    } else {
                        proof {
                            assert(!groups.is_typed_peer(group_type, iut as int, j as int));
                        }
                    }
                }
                j = j + 1;
            }
            proof {
                assert forall|w: int|
                    #[trigger] values.has(w) <==> hs_survives(
                    state@,
                    *groups,
                    group_type,
                    iut as int,
                    w,
                ) by {
                    if state@[iut as int].has(w) {
                        assert forall|k: int|
                            k != iut as int && #[trigger] groups.is_typed_peer(
                                group_type,
                                iut as int,
                                k,
                            ) implies 0 <= k < 81 by {
                            let g = choose|g: crate::cell_group::CellGroup|
                                #[trigger] groups.groups@.contains(g) && g.group_type == group_type
                                    && g.has(iut as int) && g.has(k);
                        }
                    }
                }
            }
            match values.as_single_value() {
                Some(value) => {
                    let ghost before = state@;
                    proof {
                        assert(before[iut as int].has(value@));
                        assert(before[iut as int].card() >= 2);
                        let pv = before[iut as int].possible_values;
                        if forall|w: int| #[trigger] pv.has(w) ==> w == value@ {
                            pv.lemma_card_single(value@);
                            assert(false);
                        }
                        let w0 = choose|w: int| #[trigger] pv.has(w) && w != value@;
                        assert(before[iut as int].has(w0) && w0 != value@);
                        // A found single on an untouched board contradicts
                        // stability of the entry board.
                        if !applied_some {
                            assert(hidden_single_at(
                                old(state)@,
                                *groups,
                                group_type,
                                iut as int,
                            )) by {
                                assert(hs_survives(
                                    old(state)@,
                                    *groups,
                                    group_type,
                                    iut as int,
                                    value@,
                                ));
                                assert forall|w: int|
                                    #[trigger] hs_survives(
                                        old(state)@,
                                        *groups,
                                        group_type,
                                        iut as int,
                                        w,
                                    ) implies w == value@ by {
                                    assert(values.has(w));
                                }
                            }
                        }
                        if hidden_singles_stable(old(state)@, *groups, group_type) {
                            assert(!applied_some);
                            assert(false);
                        }
                    }
                    let placed = state.place_and_propagate_at_index(idx, value, groups);
                    proof {
                        let w = choose|w: int| #[trigger] before[iut as int].has(w) && w != value@;
                        assert(!state@[iut as int].has(w));
                        if !applied_some {
                            wit_j = iut as int;
                            wit_w = w;
                        }
                        assert(old(state)@[wit_j].has(wit_w));
                        assert(!state@[wit_j].has(wit_w)) by {
                            if wit_j != iut as int {
                                if state@[wit_j].has(wit_w) {
                                    if wit_j != iut as int && groups.is_peer(iut as int, wit_j) {
                                        assert(before[wit_j].has(wit_w));
                                    } else {
                                        assert(state@[wit_j] == before[wit_j]);
                                    }
                                    assert(false);
                                }
                            }
                        }
                        assert(board_le(state@, old(state)@)) by {
                            assert forall|i: int, w2: int|
                                0 <= i < 81 && (#[trigger] state@[i].has(w2)) implies old(
                            state,
                            )@[i].has(w2) by {
                                if i == iut as int {
                                    assert(w2 == value@);
                                    assert(before[i].has(w2));
                                } else if groups.is_peer(iut as int, i) {
                                    assert(before[i].has(w2));
                                } else {
                                    assert(state@[i] == before[i]);
                                }
                            }
                        }
                    }
                    applied_some = true;
                },
                None => {
                    proof {
                        if !applied_some {
                            assert(!hidden_single_at(
                                old(state)@,
                                *groups,
                                group_type,
                                iut as int,
                            )) by {
                                if hidden_single_at(old(state)@, *groups, group_type, iut as int) {
                                    let v = choose|v: int|
                                        #[trigger] hs_survives(
                                            old(state)@,
                                            *groups,
                                            group_type,
                                            iut as int,
                                            v,
                                        ) && (forall|w: int|
                                            #[trigger] hs_survives(
                                                old(state)@,
                                                *groups,
                                                group_type,
                                                iut as int,
                                                w,
                                            ) ==> w == v);
                                    assert(values.has(v));
                                    assert forall|w: int| #[trigger] values.has(w) implies w
                                        == v by {
                                        assert(hs_survives(
                                            old(state)@,
                                            *groups,
                                            group_type,
                                            iut as int,
                                            w,
                                        ));
                                    }
                                    values.lemma_card_single(v);
                                    assert(false);
                                }
                            }
                        }
                    }
                },
            }
            iut = iut + 1;
        }
        proof {
            if applied_some {
                lemma_board_neq(old(state)@, state@, wit_j, wit_w);
            } else {
                assert(hidden_singles_stable(old(state)@, *groups, group_type));
            }
            if board_decided(old(state)@) {
                lemma_decided_hidden_singles_stable(old(state)@, *groups, group_type);
            }
        }
        if applied_some {
            Ok(StrategyResult::AppliedChange)
        } else {
            Ok(StrategyResult::NoChange)
        }
    }
}

} // verus!
