//! The Naked Twins rule: two same-group cells with an identical
//! two-candidate set exclude those candidates everywhere else in the
//! group; a third such cell is a pigeonhole contradiction.

use crate::cell_group::{CellGroup, CellGroupType, CellGroups};
use crate::game_cell::{GameCell, IndexedGameCell};
use crate::game_state::{board_decided, board_le, board_wf, lemma_board_neq, lemma_staged_change,
    GameState, InvalidGameState};
use crate::index::{Index, IndexBitSet};
use crate::strategies::StrategyResult;
use crate::value::ValueBitSet;
use vstd::prelude::*;

verus! {

/// `x` holds exactly two candidates, the same two as `y`.
pub open spec fn same_two_set(x: GameCell, y: GameCell) -> bool {
    x.card() == 2 && (forall|w: int| #[trigger] x.has(w) <==> y.has(w))
}

/// One group of the given type holds the ordered triple `a < b < c`,
/// all three cells share one two-candidate set, and no cell below `a`
/// carries that same set; further matching cells anywhere are fine.
pub open spec fn is_twin_triple_at(
    s: Seq<GameCell>,
    groups: CellGroups,
    gt: CellGroupType,
    g: CellGroup,
    a: int,
    b: int,
    c: int,
) -> bool {
    &&& groups.groups@.contains(g)
    &&& g.group_type == gt
    &&& 0 <= a < b && b < c < 81
    &&& g.has(a) && g.has(b) && g.has(c)
    &&& s[a].card() == 2
    &&& same_two_set(s[b], s[a])
    &&& same_two_set(s[c], s[a])
    &&& forall|d: int|
        0 <= d < 81 && same_two_set(#[trigger] s[d], s[a]) ==> a <= d
}

/// Two distinct cells besides `u`, all three sharing a group type, carry
/// `u`'s exact two-candidate set: the situation the scan reports as an
/// invalid state.
pub open spec fn naked_twins_conflict(s: Seq<GameCell>, groups: CellGroups, gt: CellGroupType)
    -> bool {
    exists|u: int, i: int, j: int|
        #![trigger groups.is_typed_peer(gt, u, i), groups.is_typed_peer(gt, u, j)]
        0 <= u < 81 && 0 <= i < 81 && 0 <= j < 81 && i != j && i != u && j != u
            && groups.is_typed_peer(gt, u, i) && groups.is_typed_peer(gt, u, j) && s[u].card() == 2
            && same_two_set(s[i], s[u]) && same_two_set(s[j], s[u])
}

/// The board holds a three-way naked twin: a pigeonhole contradiction
/// that the Naked Twins rule must report as an invalid state.
pub open spec fn spec_naked_twin_triple(s: Seq<GameCell>, groups: CellGroups, gt: CellGroupType)
    -> bool {
    exists|g: CellGroup, a: int, b: int, c: int| #[trigger] is_twin_triple_at(s, groups, gt, g, a, b, c)
}

struct TwinPair {
    smaller: Index,
    larger: Index,
    values: ValueBitSet,
}

/// Identifies and realizes naked twins.
///
/// Given three cells with the values `3 5`, `3 4` and `3 4`, `3 4` are
/// the naked twins. Since those two values must occupy the last two
/// cells, the `3` can be removed from the first cell.
pub struct NakedTwins {
    pub enabled: bool,
}

impl NakedTwins {
    pub fn new_box(enabled: bool) -> (r: Box<Self>)
        ensures
            r.enabled == enabled,
    {
        Box::new(NakedTwins { enabled })
    }

    pub fn is_enabled(&self) -> (r: bool)
        ensures
            r == self.enabled,
    {
        self.enabled
    }

    /// A change from this rule restarts the solving loop.
    pub fn always_continue(&self) -> (r: bool)
        ensures
            !r,
    {
        false
    }

    /// Runs the rule once per group type; the first detected
    /// contradiction aborts the pass.
    pub fn apply(&self, state: &mut GameState, groups: &CellGroups) -> (r: Result<
        StrategyResult,
        InvalidGameState,
    >)
        requires
            old(state).wf(),
            groups.wf(),
        ensures
            final(state).wf(),
            final(state)@.len() == 81,
            board_le(final(state)@, old(state)@),
            r == Ok::<StrategyResult, InvalidGameState>(StrategyResult::NoChange) <==> (r is Ok
                && final(state)@ == old(state)@),
            spec_naked_twin_triple(old(state)@, *groups, CellGroupType::Custom) ==> r is Err,
            r is Err ==> (exists|s: Seq<GameCell>|
                #![trigger board_le(s, old(state)@)]
                board_wf(s) && board_le(s, old(state)@) && (naked_twins_conflict(
                    s,
                    *groups,
                    CellGroupType::Custom,
                ) || naked_twins_conflict(s, *groups, CellGroupType::StandardBlock)
                    || naked_twins_conflict(s, *groups, CellGroupType::StandardRow)
                    || naked_twins_conflict(s, *groups, CellGroupType::StandardColumn))),
            board_decided(old(state)@) ==> r == Ok::<StrategyResult, InvalidGameState>(
                StrategyResult::NoChange,
            ),
    {
        let mut applied = false;
        let ghost s0 = state@;
        let r1 = self.apply_in_group(state, groups, CellGroupType::Custom);
        if r1.is_err() {
            proof {
                assert(board_le(s0, old(state)@));
            }
            return Err(InvalidGameState {});
        }
        applied = applied || matches!(r1, Ok(StrategyResult::AppliedChange));
        let ghost s1 = state@;
        let r2 = self.apply_in_group(state, groups, CellGroupType::StandardBlock);
        if r2.is_err() {
            proof {
                lemma_staged_change(s0, s1, state@, state@, state@);
                assert(board_le(s1, old(state)@));
            }
            return Err(InvalidGameState {});
        }
        applied = applied || matches!(r2, Ok(StrategyResult::AppliedChange));
        let ghost s2 = state@;
        let r3 = self.apply_in_group(state, groups, CellGroupType::StandardRow);
        if r3.is_err() {
            proof {
                lemma_staged_change(s0, s1, s2, state@, state@);
                assert(board_le(s2, old(state)@));
            }
            return Err(InvalidGameState {});
        }
        applied = applied || matches!(r3, Ok(StrategyResult::AppliedChange));
        let ghost s3 = state@;
        let r4 = self.apply_in_group(state, groups, CellGroupType::StandardColumn);
        if r4.is_err() {
            proof {
                lemma_staged_change(s0, s1, s2, s3, state@);
                assert(board_le(s3, old(state)@));
            }
            return Err(InvalidGameState {});
        }
        applied = applied || matches!(r4, Ok(StrategyResult::AppliedChange));
        let ghost s4 = state@;
        proof {
            lemma_staged_change(s0, s1, s2, s3, s4);
        }
        if applied {
            Ok(StrategyResult::AppliedChange)
        } else {
            Ok(StrategyResult::NoChange)
        }
    }

    /// Applies the rule for the peers of one group type.
    ///
    /// The pass first scans the unchanged board for twin pairs, failing
    /// with an invalid state when some pair has more than one partner; a
    /// board holding a three-way twin in one group, with no earlier cell
    /// carrying the same pair, is therefore always rejected, and every
    /// rejection points at a two-candidate cell with two same-set
    /// partners among its typed peers. Only then are the collected
    /// pairs' values erased from the other cells of their groups.
    pub fn apply_in_group(
        &self,
        state: &mut GameState,
        groups: &CellGroups,
        group_type: CellGroupType,
    ) -> (r: Result<StrategyResult, InvalidGameState>)
        requires
            old(state).wf(),
            groups.wf(),
        ensures
            final(state).wf(),
            final(state)@.len() == 81,
            board_le(final(state)@, old(state)@),
            r is Err ==> final(state)@ == old(state)@,
            r == Ok::<StrategyResult, InvalidGameState>(StrategyResult::NoChange) <==> (r is Ok
                && final(state)@ == old(state)@),
            spec_naked_twin_triple(old(state)@, *groups, group_type) ==> r is Err,
            r is Err ==> naked_twins_conflict(old(state)@, *groups, group_type),
            board_decided(old(state)@) ==> r == Ok::<StrategyResult, InvalidGameState>(
                StrategyResult::NoChange,
            ),
    {
        let ghost trip = spec_naked_twin_triple(old(state)@, *groups, group_type);
        let ghost (g0, a0, b0, c0) = choose|g: CellGroup, a: int, b: int, c: int|
            #[trigger] is_twin_triple_at(old(state)@, *groups, group_type, g, a, b, c);
        let mut twins_to_remove: Vec<TwinPair> = Vec::new();
        let mut observed_twins = IndexBitSet::empty();
        let mut iut: u8 = 0;
        while iut < 81
            invariant
                0 <= iut <= 81,
                state.wf(),
                state@.len() == 81,
                groups.wf(),
                state@ == old(state)@,
                observed_twins.wf(),
                trip == spec_naked_twin_triple(old(state)@, *groups, group_type),
                trip ==> is_twin_triple_at(old(state)@, *groups, group_type, g0, a0, b0, c0),
                trip ==> iut <= a0 && !observed_twins.has(a0) && !observed_twins.has(b0)
                    && !observed_twins.has(c0),
                forall|m: int|
                    0 <= m < twins_to_remove@.len() ==> ((#[trigger] twins_to_remove@[m].smaller).wf()
                        && twins_to_remove@[m].larger.wf() && twins_to_remove@[m].values.wf()),
                board_decided(old(state)@) ==> twins_to_remove@.len() == 0,
            decreases 81 - iut,
        {
            let idx = Index::new(iut);
            let fresh = observed_twins.try_insert(idx);
            proof {
                if trip {
                    assert(iut as int != b0 && iut as int != c0);
                }
            }
            if !fresh {
                proof {
                    if trip && iut as int == a0 {
                        assert(false);
                    }
                }
                iut = iut + 1;
                continue;
            }
            let cell_under_test = state.get_at_index(idx);
            if !(cell_under_test.len() == 2) {
                proof {
                    if trip && iut as int == a0 {
                        assert(false);
                    }
                }
                iut = iut + 1;
                continue;
            }
            let peers = groups.get_peer_indexes(idx, group_type);
            let mut possible_twins: Vec<IndexedGameCell> = Vec::new();
            let mut j: u8 = 0;
            while j < 81
                invariant
                    0 <= j <= 81,
                    iut < 81,
                    state.wf(),
                    state@.len() == 81,
                    groups.wf(),
                    state@ == old(state)@,
                    observed_twins.wf(),
                    peers.wf(),
                    cell_under_test == state@[iut as int],
                    cell_under_test.card() == 2,
                    forall|k: int|
                        #[trigger] peers.has(k) <==> groups.is_typed_peer(
                            group_type,
                            iut as int,
                            k,
                        ),
                    observed_twins.has(iut as int),
                    trip ==> is_twin_triple_at(old(state)@, *groups, group_type, g0, a0, b0, c0),
                    trip ==> !observed_twins.has(b0) && !observed_twins.has(c0),
                    forall|m: int|
                        0 <= m < possible_twins@.len() ==> ({
                            let e = #[trigger] possible_twins@[m];
                            e.index.wf() && e.index@ != iut as int && !observed_twins.has(e.index@)
                                && peers.has(e.index@) && e.index@ < j as int && e.inner
                                == state@[e.index@] && e.inner.possible_values
                                == cell_under_test.possible_values
                        }),
                    forall|m1: int, m2: int|
                        0 <= m1 < m2 < possible_twins@.len() ==> (#[trigger] possible_twins@[m1]).index@
                            < (#[trigger] possible_twins@[m2]).index@,
                    (trip && iut as int == a0 && j > b0) ==> (exists|m: int|
                        0 <= m < possible_twins@.len() && (#[trigger] possible_twins@[m]).index@
                            == b0),
                    (trip && iut as int == a0 && j > c0) ==> (exists|m: int|
                        0 <= m < possible_twins@.len() && (#[trigger] possible_twins@[m]).index@
                            == c0),
                decreases 81 - j,
            {
                let jdx = Index::new(j);
                if peers.contains(jdx) && !observed_twins.contains(jdx) {
                    let cell = state.get_at_index(jdx);
                    if cell.len() == 2 {
                        if cell.to_bitset() == cell_under_test.to_bitset() {
                            let ghost ptbefore = possible_twins@;
                            possible_twins.push(cell.into_indexed(jdx));
                            proof {
                                if trip && iut as int == a0 {
                                    if j as int == b0 {
                                        assert((#[trigger] possible_twins@[ptbefore.len() as int]).index@
                                            == b0);
                                    }
                                    if j as int == c0 {
                                        assert((#[trigger] possible_twins@[ptbefore.len() as int]).index@
                                            == c0);
                                    }
                                    if j > b0 && j as int != b0 && exists|m: int|
                                        0 <= m < ptbefore.len() && (#[trigger] ptbefore[m]).index@
                                            == b0 {
                                        let m = choose|m: int|
                                            0 <= m < ptbefore.len() && (#[trigger] ptbefore[m]).index@
                                                == b0;
                                        assert((#[trigger] possible_twins@[m]).index@ == b0);
                                    }
                                    if j > c0 && j as int != c0 && exists|m: int|
                                        0 <= m < ptbefore.len() && (#[trigger] ptbefore[m]).index@
                                            == c0 {
                                        let m = choose|m: int|
                                            0 <= m < ptbefore.len() && (#[trigger] ptbefore[m]).index@
                                                == c0;
                                        assert((#[trigger] possible_twins@[m]).index@ == c0);
                                    }
                                }
                            }
                        } else {
                            proof {
                                if trip && iut as int == a0 && (j as int == b0 || j as int == c0) {
                                    assert(same_two_set(
                                        old(state)@[j as int],
                                        old(state)@[a0],
                                    ));
                                    assert forall|w: int|
                                        cell.possible_values.has(w)
                                            <==> cell_under_test.possible_values.has(w) by {
                                        assert(old(state)@[j as int].has(w) <==> old(
                                            state,
                                        )@[a0].has(w));
                                    }
                                    cell.possible_values.lemma_ext(
                                        cell_under_test.possible_values,
                                    );
                                    assert(false);
                                }
                            }
                        }
                    } else {
                        proof {
                            if trip && iut as int == a0 && (j as int == b0 || j as int == c0) {
                                old(state)@[j as int].possible_values.lemma_card_agree(
                                    old(state)@[a0].possible_values,
                                );
                                assert(false);
                            }
                        }
                    }
                } else {
                    proof {
                        if trip && iut as int == a0 && (j as int == b0 || j as int == c0) {
                            assert(groups.is_typed_peer(group_type, a0, j as int)) by {
                                assert(groups.groups@.contains(g0) && g0.group_type == group_type
                                    && g0.has(a0) && g0.has(j as int));
                            }
                            assert(peers.has(j as int));
                            assert(false);
                        }
                    }
                }
                j = j + 1;
            }
            if possible_twins.len() > 1 {
                proof {
                    let e0 = possible_twins@[0];
                    let e1 = possible_twins@[1];
                    assert(e0.index@ < e1.index@);
                    assert(groups.is_typed_peer(group_type, iut as int, e0.index@));
                    assert(groups.is_typed_peer(group_type, iut as int, e1.index@));
                    assert(same_two_set(old(state)@[e0.index@], old(state)@[iut as int])) by {
                        assert forall|w: int|
                            #[trigger] old(state)@[e0.index@].has(w) <==> old(
                            state,
                        )@[iut as int].has(w) by {}
                    }
                    assert(same_two_set(old(state)@[e1.index@], old(state)@[iut as int])) by {
                        assert forall|w: int|
                            #[trigger] old(state)@[e1.index@].has(w) <==> old(
                            state,
                        )@[iut as int].has(w) by {}
                    }
                    assert(naked_twins_conflict(old(state)@, *groups, group_type));
                    assert(old(state)@[iut as int].card() == 2);
                    assert(!board_decided(old(state)@));
                }
                return Err(InvalidGameState {});
            }
            proof {
                if trip && iut as int == a0 {
                    let m1 = choose|m: int|
                        0 <= m < possible_twins@.len() && (#[trigger] possible_twins@[m]).index@
                            == b0;
                    let m2 = choose|m: int|
                        0 <= m < possible_twins@.len() && (#[trigger] possible_twins@[m]).index@
                            == c0;
                    assert(m1 != m2);
                    assert(possible_twins@.len() >= 2);
                    assert(false);
                }
            }
            if possible_twins.len() < 1 {
                iut = iut + 1;
                continue;
            }
            let other_twin = possible_twins[0];
            observed_twins.insert(other_twin.index);
            proof {
                if trip {
                    assert(iut as int != a0);
                    if other_twin.index@ == a0 || other_twin.index@ == b0 || other_twin.index@
                        == c0 {
                        assert(same_two_set(old(state)@[other_twin.index@], old(state)@[a0])) by {
                            if other_twin.index@ == a0 {
                                assert(old(state)@[a0].card() == 2);
                            }
                        }
                        assert(same_two_set(old(state)@[iut as int], old(state)@[a0])) by {
                            assert forall|w: int|
                                #[trigger] old(state)@[iut as int].has(w) <==> old(state)@[a0].has(
                                    w,
                                ) by {
                                assert(old(state)@[iut as int].has(w) <==> old(
                                    state,
                                )@[other_twin.index@].has(w));
                            }
                        }
                        assert(a0 <= iut as int);
                        assert(false);
                    }
                }
            }
            let smaller = if iut < other_twin.index.get() {
                idx
            } else {
                other_twin.index
            };
            let larger = if iut < other_twin.index.get() {
                other_twin.index
            } else {
                idx
            };
            twins_to_remove.push(TwinPair { smaller, larger, values: other_twin.to_bitset() });
            iut = iut + 1;
        }
        // Scan complete: erase each pair's values from the rest of its group.
        proof {
            if trip {
                assert(false);
            }
        }
        let mut applied_some = false;
        let ghost mut wit_j: int = 0;
        let ghost mut wit_w: int = 0;
        let mut t: usize = 0;
        while t < twins_to_remove.len()
            invariant
                0 <= t <= twins_to_remove@.len(),
                state.wf(),
                state@.len() == 81,
                groups.wf(),
                board_le(state@, old(state)@),
                !applied_some ==> state@ == old(state)@,
                applied_some ==> 0 <= wit_j < 81 && old(state)@[wit_j].has(wit_w)
                    && !state@[wit_j].has(wit_w),
                board_decided(old(state)@) ==> twins_to_remove@.len() == 0 && !applied_some,
                forall|m: int|
                    0 <= m < twins_to_remove@.len() ==> ((#[trigger] twins_to_remove@[m].smaller).wf()
                        && twins_to_remove@[m].larger.wf() && twins_to_remove@[m].values.wf()),
            decreases twins_to_remove@.len() - t,
        {
            let twin_smaller = twins_to_remove[t].smaller;
            let twin_larger = twins_to_remove[t].larger;
            let twin_values = twins_to_remove[t].values;
            let peers = groups.get_peer_indexes(twin_smaller, group_type);
            let mut j: u8 = 0;
            while j < 81
                invariant
                    0 <= j <= 81,
                    state.wf(),
                    state@.len() == 81,
                    groups.wf(),
                    peers.wf(),
                    twin_smaller.wf(),
                    twin_larger.wf(),
                    twin_values.wf(),
                    board_le(state@, old(state)@),
                    !applied_some ==> state@ == old(state)@,
                    applied_some ==> 0 <= wit_j < 81 && old(state)@[wit_j].has(wit_w)
                        && !state@[wit_j].has(wit_w),
                decreases 81 - j,
            {
                let jdx = Index::new(j);
                if peers.contains(jdx) && j != twin_smaller.get() && j != twin_larger.get() {
                    let ghost before = state@;
                    let removed = state.forget_many_at_index(jdx, twin_values);
                    proof {
                        if removed && !applied_some {
                            let w = choose|w: int| before[j as int].has(w) && twin_values.has(w);
                            wit_j = j as int;
                            wit_w = w;
                        }
                        assert(board_le(state@, old(state)@)) by {
                            assert forall|i: int, w: int|
                                0 <= i < 81 && (#[trigger] state@[i].has(w)) implies old(
                            state,
                            )@[i].has(w) by {
                                assert(before[i].has(w));
                            }
                        }
                    }
                    applied_some = applied_some || removed;
                }
                j = j + 1;
            }
            t = t + 1;
        }
        proof {
            if applied_some {
                lemma_board_neq(old(state)@, state@, wit_j, wit_w);
            }
        }
        if applied_some {
            Ok(StrategyResult::AppliedChange)
        } else {
            Ok(StrategyResult::NoChange)
        }
    }
}

} // verus!
