//! The Hidden Twins rule: two values confined to two cells of a group
//! claim those cells, which collapse to exactly that pair.

use crate::cell_group::{CellGroupType, CellGroups};
use crate::game_cell::GameCell;
use crate::game_state::{board_decided, board_le, cells_disjoint, lemma_staged_change, GameState,
    InvalidGameState};
use crate::index::Index;
use crate::strategies::StrategyResult;
use crate::value::ValueBitSet;
use vstd::prelude::*;

verus! {

/// Cells `u` and `j` share the candidate `w`.
pub open spec fn hp_shared(s: Seq<GameCell>, u: int, j: int, w: int) -> bool {
    s[u].has(w) && s[j].has(w)
}

/// A lone hidden pair: the typed peers `u < j` share exactly two
/// candidates, `u` still holds a third one, and no other cell anywhere
/// shares a candidate with `u`. The rule always collapses such a pair.
pub open spec fn lone_hidden_pair_at(
    s: Seq<GameCell>,
    groups: CellGroups,
    gt: CellGroupType,
    u: int,
    j: int,
) -> bool {
    &&& 0 <= u < j && j < 81
    &&& groups.is_typed_peer(gt, u, j)
    &&& s[u].card() >= 3
    &&& exists|a: int, b: int|
        #[trigger] hp_shared(s, u, j, a) && #[trigger] hp_shared(s, u, j, b) && a != b && (forall|
            w: int,
        |
            hp_shared(s, u, j, w) ==> w == a || w == b)
    &&& forall|d: int| 0 <= d < 81 && d != u && d != j ==> cells_disjoint(#[trigger] s[d], s[u])
}

struct TwinPair {
    smaller: Index,
    larger: Index,
    values: ValueBitSet,
}

/// Identifies and realizes hidden twins.
///
/// Given three cells with the values `5 7`, `3 4 5` and `3 4 7`, `3 4`
/// is the hidden twin. Since `3` and `4` appear only in the second and
/// third cell, they must be placed there, eliminating `5` and `7` from
/// those cells.
pub struct HiddenTwins {
    pub enabled: bool,
}

impl HiddenTwins {
    pub fn new_box(enabled: bool) -> (r: Box<Self>)
        ensures
            r.enabled == enabled,
    {
        Box::new(HiddenTwins { enabled })
    }

    pub fn is_enabled(&self) -> (r: bool)
        ensures
            r == self.enabled,
    {
        self.enabled
    }

    /// A change from this rule restarts the solving loop.
    pub fn always_continue(&self) -> (r: bool)
        ensures
            !r,
    {
        false
    }

    /// Runs the rule once per group type.
    pub fn apply(&self, state: &mut GameState, groups: &CellGroups) -> (r: Result<
        StrategyResult,
        InvalidGameState,
    >)
        requires
            old(state).wf(),
            groups.wf(),
        ensures
            final(state).wf(),
            final(state)@.len() == 81,
            board_le(final(state)@, old(state)@),
            r is Ok,
            r == Ok::<StrategyResult, InvalidGameState>(StrategyResult::NoChange) <==> final(state)@ == old(state)@,
            board_decided(old(state)@) ==> r == Ok::<StrategyResult, InvalidGameState>(
                StrategyResult::NoChange,
            ),
            (exists|u: int, j: int|
                #[trigger] lone_hidden_pair_at(
                    old(state)@,
                    *groups,
                    CellGroupType::Custom,
                    u,
                    j,
                )) ==> r == Ok::<StrategyResult, InvalidGameState>(StrategyResult::AppliedChange),
    {
        let mut applied = false;
        let ghost s0 = state@;
        let r1 = self.apply_in_group(state, groups, CellGroupType::Custom);
        applied = applied || matches!(r1, Ok(StrategyResult::AppliedChange));
        let ghost s1 = state@;
        let r2 = self.apply_in_group(state, groups, CellGroupType::StandardBlock);
        applied = applied || matches!(r2, Ok(StrategyResult::AppliedChange));
        let ghost s2 = state@;
        let r3 = self.apply_in_group(state, groups, CellGroupType::StandardRow);
        applied = applied || matches!(r3, Ok(StrategyResult::AppliedChange));
        let ghost s3 = state@;
        let r4 = self.apply_in_group(state, groups, CellGroupType::StandardColumn);
        applied = applied || matches!(r4, Ok(StrategyResult::AppliedChange));
        let ghost s4 = state@;
        proof {
            lemma_staged_change(s0, s1, s2, s3, s4);
        }
        if applied {
            Ok(StrategyResult::AppliedChange)
        } else {
            Ok(StrategyResult::NoChange)
        }
    }

    /// Applies the rule for the peers of one group type.
    ///
    /// The pass first scans the unchanged board for hidden pairs, then
    /// collapses each pair's two cells to exactly the pair's values. It
    /// only narrows cells, reports a change exactly when the board
    /// changed, and always collapses a lone hidden pair.
    pub fn apply_in_group(
        &self,
        state: &mut GameState,
        groups: &CellGroups,
        group_type: CellGroupType,
    ) -> (r: Result<StrategyResult, InvalidGameState>)
        requires
            old(state).wf(),
            groups.wf(),
        ensures
            final(state).wf(),
            final(state)@.len() == 81,
            board_le(final(state)@, old(state)@),
            r is Ok,
            r == Ok::<StrategyResult, InvalidGameState>(StrategyResult::NoChange) <==> final(state)@ == old(state)@,
            board_decided(old(state)@) ==> r == Ok::<StrategyResult, InvalidGameState>(
                StrategyResult::NoChange,
            ),
            (exists|u: int, j: int|
                #[trigger] lone_hidden_pair_at(old(state)@, *groups, group_type, u, j)) ==> r
                == Ok::<StrategyResult, InvalidGameState>(StrategyResult::AppliedChange),
    {
        let ghost hyp = exists|u: int, j: int|
            #[trigger] lone_hidden_pair_at(old(state)@, *groups, group_type, u, j);
        let ghost (u0, j0) = choose|u: int, j: int|
            #[trigger] lone_hidden_pair_at(old(state)@, *groups, group_type, u, j);
        let mut twins: Vec<TwinPair> = Vec::new();
        let mut iut: u8 = 0;
        while iut < 81
            invariant
                0 <= iut <= 81,
                state.wf(),
                state@.len() == 81,
                groups.wf(),
                state@ == old(state)@,
                board_decided(old(state)@) ==> twins@.len() == 0,
                hyp == (exists|u: int, j: int|
                    #[trigger] lone_hidden_pair_at(old(state)@, *groups, group_type, u, j)),
                hyp ==> lone_hidden_pair_at(old(state)@, *groups, group_type, u0, j0),
                hyp ==> (forall|m: int|
                    0 <= m < twins@.len() ==> (((#[trigger] twins@[m]).smaller@ == u0
                        ==> twins@[m].larger@ == j0) && twins@[m].larger@ != u0)),
                hyp && iut as int > u0 ==> (exists|m: int|
                    0 <= m < twins@.len() && (#[trigger] twins@[m]).smaller@ == u0),
                hyp && iut as int <= u0 ==> (forall|m: int|
                    0 <= m < twins@.len() ==> (#[trigger] twins@[m]).smaller@ != u0),
                forall|m: int|
                    0 <= m < twins@.len() ==> ({
                        let t = #[trigger] twins@[m];
                        t.smaller.wf() && t.larger.wf() && t.values.wf() && t.values.card() == 2
                            && (forall|w: int|
                            #[trigger] t.values.has(w) ==> old(state)@[t.smaller@].has(w)) && (
                        forall|w: int|
                            #[trigger] t.values.has(w) ==> old(state)@[t.larger@].has(w))
                    }),
            decreases 81 - iut,
        {
            let idx = Index::new(iut);
            let cell_under_test = state.get_at_index(idx);
            let cell_under_test_len = cell_under_test.len();
            if cell_under_test_len < 2 {
                proof {
                    if hyp && iut as int == u0 {
                        assert(old(state)@[u0].card() >= 3);
                        assert(false);
                    }
                }
                iut = iut + 1;
                continue;
            }
            let peers = groups.get_peer_indexes(idx, group_type);
            let mut values_observed = ValueBitSet::empty();
            let mut abort = false;
            let mut jj: u8 = iut + 1;
            while jj < 81 && !abort
                invariant
                    iut < jj <= 81,
                    iut < 81,
                    state.wf(),
                    state@.len() == 81,
                    groups.wf(),
                    state@ == old(state)@,
                    peers.wf(),
                    values_observed.wf(),
                    idx@ == iut as int,
                    cell_under_test == state@[iut as int],
                    cell_under_test.card() >= 2,
                    cell_under_test_len == cell_under_test.card(),
                    board_decided(old(state)@) ==> twins@.len() == 0,
                    forall|k: int|
                        #[trigger] peers.has(k) <==> groups.is_typed_peer(
                            group_type,
                            iut as int,
                            k,
                        ),
                    hyp == (exists|u: int, j: int|
                        #[trigger] lone_hidden_pair_at(old(state)@, *groups, group_type, u, j)),
                    hyp ==> lone_hidden_pair_at(old(state)@, *groups, group_type, u0, j0),
                    hyp ==> (forall|m: int|
                        0 <= m < twins@.len() ==> (((#[trigger] twins@[m]).smaller@ == u0
                            ==> twins@[m].larger@ == j0) && twins@[m].larger@ != u0)),
                    hyp && iut as int > u0 ==> (exists|m: int|
                        0 <= m < twins@.len() && (#[trigger] twins@[m]).smaller@ == u0),
                    hyp && iut as int == u0 && jj as int <= j0 ==> !abort && (forall|w: int|
                        !values_observed.has(w)) && (forall|m: int|
                        0 <= m < twins@.len() ==> (#[trigger] twins@[m]).smaller@ != u0),
                    hyp && iut as int == u0 && jj as int > j0 ==> (exists|m: int|
                        0 <= m < twins@.len() && (#[trigger] twins@[m]).smaller@ == u0),
                    hyp && (iut as int) < u0 ==> (forall|m: int|
                        0 <= m < twins@.len() ==> (#[trigger] twins@[m]).smaller@ != u0),
                    forall|m: int|
                        0 <= m < twins@.len() ==> ({
                            let t = #[trigger] twins@[m];
                            t.smaller.wf() && t.larger.wf() && t.values.wf() && t.values.card()
                                == 2 && (forall|w: int|
                                #[trigger] t.values.has(w) ==> old(state)@[t.smaller@].has(w)) && (
                            forall|w: int|
                                #[trigger] t.values.has(w) ==> old(state)@[t.larger@].has(w))
                        }),
                decreases 81 - jj + if abort {
                    0int
                } else {
                    1int
                },
            {
                let jdx = Index::new(jj);
                if !peers.contains(jdx) {
                    proof {
                        if hyp && iut as int == u0 && jj as int == j0 {
                            assert(peers.has(j0));
                            assert(false);
                        }
                    }
                    jj = jj + 1;
                    continue;
                }
                let peer_values = state.get_at_index(jdx).to_bitset();
                let values = peer_values.with_intersection(cell_under_test.to_bitset());
                proof {
                    if hyp && iut as int == u0 && jj as int == j0 {
                        let (a, b) = choose|a: int, b: int|
                            #[trigger] hp_shared(old(state)@, u0, j0, a) && #[trigger] hp_shared(
                                old(state)@,
                                u0,
                                j0,
                                b,
                            ) && a != b && (forall|w: int|
                                hp_shared(old(state)@, u0, j0, w) ==> w == a || w == b);
                        assert(values.has(a) && values.has(b));
                        assert forall|w: int| #[trigger] values.has(w) implies w == a || w
                            == b by {
                            assert(hp_shared(old(state)@, u0, j0, w));
                        }
                        values.lemma_card_two(a, b);
                    }
                    if hyp && iut as int == u0 && jj as int != j0 {
                        assert(cells_disjoint(old(state)@[jj as int], old(state)@[u0]));
                        assert forall|w: int| !#[trigger] values.has(w) by {
                            if values.has(w) {
                                assert(old(state)@[jj as int].has(w) && old(state)@[u0].has(w));
                            }
                        }
                        values.lemma_card_zero();
                    }
                }
                if !(values.len() == 2) {
                    proof {
                        if hyp && iut as int == u0 && jj as int == j0 {
                            assert(false);
                        }
                    }
                    jj = jj + 1;
                    continue;
                }
                proof {
                    if hyp && iut as int == u0 {
                        assert(jj as int == j0);
                    }
                }
                // Skip (possible) naked twins as they are already covered.
                if cell_under_test_len == 2 && peer_values.len() == 2 {
                    proof {
                        if hyp && iut as int == u0 {
                            assert(old(state)@[u0].card() >= 3);
                            assert(false);
                        }
                    }
                    abort = true;
                    continue;
                }
                // Values seen in a previously scanned cell make no proper pair.
                if values_observed.contains_some(&values) {
                    proof {
                        if hyp && iut as int == u0 {
                            assert(false);
                        }
                    }
                    abort = true;
                    continue;
                }
                values_observed.union(&values);
                // No third cell of the group may carry either value.
                let mut third_carries = false;
                let mut k: u8 = 0;
                while k < 81
                    invariant
                        0 <= k <= 81,
                        state.wf(),
                        state@.len() == 81,
                        state@ == old(state)@,
                        peers.wf(),
                        values.wf(),
                        iut < 81,
                        jj < 81,
                        forall|w: int|
                            #[trigger] values.has(w) ==> state@[iut as int].has(w)
                                && state@[jj as int].has(w),
                        hyp ==> lone_hidden_pair_at(old(state)@, *groups, group_type, u0, j0),
                        hyp && iut as int == u0 && jj as int == j0 ==> !third_carries,
                    decreases 81 - k,
                {
                    if k != iut && k != jj {
                        let kdx = Index::new(k);
                        if peers.contains(kdx) {
                            if state.get_at_index(kdx).contains_some(values) {
                                proof {
                                    if hyp && iut as int == u0 && jj as int == j0 {
                                        let w = choose|w: int|
                                            state@[k as int].has(w) && values.has(w);
                                        assert(old(state)@[k as int].has(w) && old(
                                            state,
                                        )@[u0].has(w));
                                        assert(cells_disjoint(
                                            old(state)@[k as int],
                                            old(state)@[u0],
                                        ));
                                        assert(false);
                                    }
                                }
                                third_carries = true;
                            }
                        }
                    }
                    k = k + 1;
                }
                if third_carries {
                    proof {
                        if hyp && iut as int == u0 {
                            assert(false);
                        }
                    }
                    abort = true;
                    continue;
                }
                proof {
                    assert(forall|w: int|
                        #[trigger] values.has(w) ==> state@[iut as int].has(w));
                    assert(forall|w: int| #[trigger] values.has(w) ==> state@[jj as int].has(w));
                    assert(!board_decided(old(state)@)) by {
                        assert(old(state)@[iut as int].card() >= 2);
                    }
                }
                let ghost tbefore = twins@;
                twins.push(TwinPair { smaller: idx, larger: jdx, values });
                proof {
                    assert forall|m: int|
                        0 <= m < twins@.len() implies ({
                        let t = #[trigger] twins@[m];
                        t.smaller.wf() && t.larger.wf() && t.values.wf() && t.values.card() == 2
                            && (forall|w: int|
                            #[trigger] t.values.has(w) ==> old(state)@[t.smaller@].has(w)) && (
                        forall|w: int|
                            #[trigger] t.values.has(w) ==> old(state)@[t.larger@].has(w))
                    }) by {
                        if m < tbefore.len() {
                            assert(twins@[m] == tbefore[m]);
                        } else {
                            assert(twins@.len() == tbefore.len() + 1);
                            assert(m == tbefore.len() as int);
                            let t = twins@[m];
                            assert(t == (TwinPair { smaller: idx, larger: jdx, values }));
                            assert(t.values == values);
                            assert(t.smaller == idx);
                            assert(t.smaller@ == iut as int);
                            assert(t.larger@ == jj as int);
                            assert forall|w: int|
                                #[trigger] t.values.has(w) implies old(state)@[t.smaller@].has(
                                w,
                            ) by {
                                assert(values.has(w));
                                assert(state@[iut as int].has(w));
                            }
                            assert forall|w: int|
                                #[trigger] t.values.has(w) implies old(state)@[t.larger@].has(
                                w,
                            ) by {
                                assert(values.has(w));
                                assert(state@[jj as int].has(w));
                            }
                        }
                    }
                    if hyp {
                        // The new entry respects the lone pair: a pair
                        // rooted at its smaller cell can only be the lone
                        // pair itself, and no entry claims its larger
                        // cell at the pair's root.
                        if jj as int == u0 {
                            assert(iut as int != u0 && iut as int != j0);
                            assert(values.card() == 2 && values.card() != 0);
                            assert(exists|w: int| #[trigger] values.has(w)) by {
                                values.lemma_card_zero();
                            }
                            let w2 = choose|w: int| #[trigger] values.has(w);
                            assert(old(state)@[iut as int].has(w2) && old(state)@[u0].has(w2));
                            assert(cells_disjoint(old(state)@[iut as int], old(state)@[u0]));
                            assert(false);
                        }
                        if iut as int == u0 {
                            assert(jj as int == j0);
                        }
                        assert forall|m: int|
                            0 <= m < twins@.len() implies (((#[trigger] twins@[m]).smaller@ == u0
                            ==> twins@[m].larger@ == j0) && twins@[m].larger@ != u0) by {
                            if m < tbefore.len() {
                                assert(twins@[m] == tbefore[m]);
                            }
                        }
                        if iut as int == u0 {
                            assert((#[trigger] twins@[tbefore.len() as int]).smaller@ == u0);
                        }
                        if iut as int > u0 {
                            let m1 = choose|m: int|
                                0 <= m < tbefore.len() && (#[trigger] tbefore[m]).smaller@ == u0;
                            assert((#[trigger] twins@[m1]).smaller@ == u0);
                        }
                        if (iut as int) < u0 {
                            assert forall|m: int|
                                0 <= m < twins@.len() implies (#[trigger] twins@[m]).smaller@
                                != u0 by {
                                if m < tbefore.len() {
                                    assert(twins@[m] == tbefore[m]);
                                }
                            }
                        }
                    }
                }
                jj = jj + 1;
            }
            iut = iut + 1;
        }
        // Collapse each pair's two cells to exactly the pair's values.
        let mut applied_some = false;
        let ghost mut wit_j: int = 0;
        let mut t: usize = 0;
        while t < twins.len()
            invariant
                0 <= t <= twins@.len(),
                state.wf(),
                state@.len() == 81,
                old(state).wf(),
                old(state)@.len() == 81,
                forall|c: int|
                    0 <= c < 81 ==> (#[trigger] state@[c] == old(state)@[c] || (
                    state@[c].possible_values.card() == 2 && (forall|w: int|
                        #[trigger] state@[c].has(w) ==> old(state)@[c].has(w)))),
                !applied_some ==> state@ == old(state)@,
                board_decided(old(state)@) ==> twins@.len() == 0 && !applied_some,
                hyp == (exists|u: int, j: int|
                    #[trigger] lone_hidden_pair_at(old(state)@, *groups, group_type, u, j)),
                hyp ==> lone_hidden_pair_at(old(state)@, *groups, group_type, u0, j0),
                hyp ==> (exists|m: int|
                    0 <= m < twins@.len() && (#[trigger] twins@[m]).smaller@ == u0),
                hyp ==> (applied_some || (forall|m: int|
                    0 <= m < t ==> (#[trigger] twins@[m]).smaller@ != u0)),
                applied_some ==> 0 <= wit_j < 81 && old(state)@[wit_j].possible_values.card() >= 3
                    && state@[wit_j].possible_values.card() == 2,
                forall|m: int|
                    0 <= m < twins@.len() ==> ({
                        let tw = #[trigger] twins@[m];
                        tw.smaller.wf() && tw.larger.wf() && tw.values.wf() && tw.values.card()
                            == 2 && (forall|w: int|
                            #[trigger] tw.values.has(w) ==> old(state)@[tw.smaller@].has(w)) && (
                        forall|w: int|
                            #[trigger] tw.values.has(w) ==> old(state)@[tw.larger@].has(w))
                    }),
            decreases twins@.len() - t,
        {
            let twin_smaller = twins[t].smaller;
            let twin_larger = twins[t].larger;
            let twin_values = twins[t].values;
            let ghost before_s = state@;
            let ghost applied_before = applied_some;
            let set_smaller = state.set_many_at_index(twin_smaller, twin_values);
            proof {
                if hyp && !applied_before && twin_smaller@ == u0 {
                    assert(before_s == old(state)@);
                    assert(set_smaller) by {
                        if before_s[u0].possible_values == twin_values {
                            assert(old(state)@[u0].card() == twin_values.card());
                        }
                    }
                }
                if set_smaller {
                    lemma_collapse_witness(
                        old(state)@,
                        before_s,
                        twin_smaller@,
                        twin_values,
                    );
                    wit_j = twin_smaller@;
                }
                assert forall|c: int|
                    0 <= c < 81 implies (#[trigger] state@[c] == old(state)@[c] || (
                state@[c].possible_values.card() == 2 && (forall|w: int|
                    #[trigger] state@[c].has(w) ==> old(state)@[c].has(w)))) by {
                    if c != twin_smaller@ {
                        assert(state@[c] == before_s[c]);
                    } else {
                        assert(state@[c].possible_values == twin_values);
                        twin_values.lemma_card_agree(twin_values);
                        assert forall|w: int|
                            #[trigger] state@[c].has(w) implies old(state)@[c].has(w) by {
                            assert(twin_values.has(w));
                        }
                    }
                }
            }
            let ghost before_l = state@;
            let set_larger = state.set_many_at_index(twin_larger, twin_values);
            proof {
                if set_larger {
                    lemma_collapse_witness(
                        old(state)@,
                        before_l,
                        twin_larger@,
                        twin_values,
                    );
                    wit_j = twin_larger@;
                } else if set_smaller {
                    assert(state@[wit_j] == before_l[wit_j]);
                }
                assert forall|c: int|
                    0 <= c < 81 implies (#[trigger] state@[c] == old(state)@[c] || (
                state@[c].possible_values.card() == 2 && (forall|w: int|
                    #[trigger] state@[c].has(w) ==> old(state)@[c].has(w)))) by {
                    if c != twin_larger@ {
                        assert(state@[c] == before_l[c]);
                    } else {
                        assert(state@[c].possible_values == twin_values);
                        assert forall|w: int|
                            #[trigger] state@[c].has(w) implies old(state)@[c].has(w) by {
                            assert(twin_values.has(w));
                        }
                    }
                }
            }
            if set_smaller || set_larger {
                applied_some = true;
            }
            t = t + 1;
        }
        proof {
            if hyp && !applied_some {
                let m1 = choose|m: int|
                    0 <= m < twins@.len() && (#[trigger] twins@[m]).smaller@ == u0;
                assert(false);
            }
            if applied_some {
                assert(state@ != old(state)@) by {
                    if state@ == old(state)@ {
                        assert(state@[wit_j] == old(state)@[wit_j]);
                    }
                }
            }
            assert(board_le(state@, old(state)@)) by {
                assert forall|i: int, w: int|
                    0 <= i < 81 && (#[trigger] state@[i].has(w)) implies old(state)@[i].has(w) by {
                    assert(state@[i] == old(state)@[i] || (forall|ww: int|
                        #[trigger] state@[i].has(ww) ==> old(state)@[i].has(ww)));
                }
            }
        }
        if applied_some {
            Ok(StrategyResult::AppliedChange)
        } else {
            Ok(StrategyResult::NoChange)
        }
    }
}

/// A cell that a hidden pair genuinely collapses must have held a third
/// candidate: its earlier states were its original value set or some
/// other two-candidate subset of it.
proof fn lemma_collapse_witness(
    orig: Seq<GameCell>,
    before: Seq<GameCell>,
    c: int,
    values: ValueBitSet,
)
    requires
        orig.len() == 81,
        before.len() == 81,
        0 <= c < 81,
        values.wf(),
        values.card() == 2,
        orig[c].wf(),
        before[c].wf(),
        forall|w: int| #[trigger] values.has(w) ==> orig[c].has(w),
        before[c] == orig[c] || (before[c].possible_values.card() == 2 && (forall|w: int|
            #[trigger] before[c].has(w) ==> orig[c].has(w))),
        before[c].possible_values != values,
    ensures
        orig[c].possible_values.card() >= 3,
{
    let opv = orig[c].possible_values;
    let bpv = before[c].possible_values;
    assert forall|w: int| #[trigger] values.has(w) implies opv.has(w) by {
        assert(orig[c].has(w));
    }
    if before[c] == orig[c] {
        if forall|w: int| #[trigger] opv.has(w) ==> values.has(w) {
            values.lemma_ext(opv);
            assert(false);
        }
        let w = choose|w: int| #[trigger] opv.has(w) && !values.has(w);
        values.lemma_card_subset(opv);
    } else {
        assert forall|w: int| #[trigger] bpv.has(w) implies opv.has(w) by {
            assert(before[c].has(w));
        }
        if forall|w: int| #[trigger] bpv.has(w) <==> values.has(w) {
            bpv.lemma_ext(values);
            assert(false);
        }
        let w = choose|w: int| !(#[trigger] bpv.has(w) <==> values.has(w));
        if bpv.has(w) {
            assert(opv.has(w) && !values.has(w));
            values.lemma_card_subset(opv);
        } else {
            assert(values.has(w));
            assert(opv.has(w) && !bpv.has(w));
            bpv.lemma_card_subset(opv);
        }
    }
}

} // verus!
