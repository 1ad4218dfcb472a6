//! The X-Wing rule: a value confined to two positions in each of two
//! rows (or columns), with the four cells forming a rectangle, can be
//! removed from the rest of those rows (or columns).

use crate::cell_group::{CellGroupType, CellGroups};
use crate::game_cell::GameCell;
use crate::game_state::{board_decided, board_le, lemma_board_neq, GameState, InvalidGameState};
use crate::index::{Index, IndexBitSet};
use crate::strategies::StrategyResult;
use crate::value::Value;
use vstd::prelude::*;

verus! {

/// An unsolved cell that still carries the value as a candidate.
pub open spec fn xw_cand(s: Seq<GameCell>, v: int, i: int) -> bool {
    0 <= i < 81 && s[i].card() != 1 && s[i].has(v)
}

/// How many cells of row `y` among the columns 0..k carry the value.
pub open spec fn xw_row_count_upto(s: Seq<GameCell>, v: int, y: int, k: int) -> int
    decreases k,
{
    if k <= 0 {
        0
    } else {
        xw_row_count_upto(s, v, y, k - 1) + if xw_cand(s, v, y * 9 + (k - 1)) {
            1int
        } else {
            0int
        }
    }
}

/// How many cells of column `x` among the rows 0..k carry the value.
pub open spec fn xw_col_count_upto(s: Seq<GameCell>, v: int, x: int, k: int) -> int
    decreases k,
{
    if k <= 0 {
        0
    } else {
        xw_col_count_upto(s, v, x, k - 1) + if xw_cand(s, v, (k - 1) * 9 + x) {
            1int
        } else {
            0int
        }
    }
}

/// A full X-Wing rectangle for the value: four unsolved corner cells
/// carrying it, with exactly two occurrences over both shared columns or
/// over both shared rows.
pub open spec fn is_xwing_at(
    s: Seq<GameCell>,
    v: int,
    tlx: int,
    tly: int,
    brx: int,
    bry: int,
) -> bool {
    &&& 0 <= tlx < brx < 9
    &&& 0 <= tly < bry < 9
    &&& xw_cand(s, v, tly * 9 + tlx)
    &&& xw_cand(s, v, tly * 9 + brx)
    &&& xw_cand(s, v, bry * 9 + tlx)
    &&& xw_cand(s, v, bry * 9 + brx)
    &&& ((xw_col_count_upto(s, v, tlx, 9) == 2 && xw_col_count_upto(s, v, brx, 9) == 2) || (
    xw_row_count_upto(s, v, tly, 9) == 2 && xw_row_count_upto(s, v, bry, 9) == 2))
}

/// The cell `i` is a legitimate target of some X-Wing for the value:
/// it shares a standard row with a left corner or a standard column with
/// a top corner of the rectangle, and is no corner itself.
pub open spec fn spec_xwing_targets(
    s: Seq<GameCell>,
    groups: CellGroups,
    v: int,
    i: int,
) -> bool {
    exists|tlx: int, tly: int, brx: int, bry: int|
        #[trigger] is_xwing_at(s, v, tlx, tly, brx, bry) && i != tly * 9 + tlx && i != tly * 9 + brx
            && i != bry * 9 + tlx && i != bry * 9 + brx && (groups.is_typed_peer(
            CellGroupType::StandardRow,
            tly * 9 + tlx,
            i,
        ) || groups.is_typed_peer(CellGroupType::StandardRow, bry * 9 + tlx, i)
            || groups.is_typed_peer(CellGroupType::StandardColumn, tly * 9 + tlx, i)
            || groups.is_typed_peer(CellGroupType::StandardColumn, tly * 9 + brx, i))
}

struct XWingCoords {
    value: Value,
    top_left: Index,
    top_right: Index,
    bottom_left: Index,
    bottom_right: Index,
}

/// The entry stands for exactly this rectangle of this value.
spec fn entry_matches(e: XWingCoords, v: int, tlx: int, tly: int, brx: int, bry: int) -> bool {
    &&& e.value@ == v
    &&& e.top_left@ == tly * 9 + tlx
    &&& e.top_right@ == tly * 9 + brx
    &&& e.bottom_left@ == bry * 9 + tlx
    &&& e.bottom_right@ == bry * 9 + brx
}

/// The scan list holds an entry for this rectangle.
spec fn xwing_found(
    entries: Seq<XWingCoords>,
    v: int,
    tlx: int,
    tly: int,
    brx: int,
    bry: int,
) -> bool {
    exists|m: int|
        0 <= m < entries.len() && entry_matches(#[trigger] entries[m], v, tlx, tly, brx, bry)
}

/// An entry of the scan list stands for a rectangle found on the board.
spec fn xwing_entry_ok(s: Seq<GameCell>, e: XWingCoords) -> bool {
    exists|tlx: int, tly: int, brx: int, bry: int|
        #[trigger] is_xwing_at(s, e.value@, tlx, tly, brx, bry) && entry_matches(
            e,
            e.value@,
            tlx,
            tly,
            brx,
            bry,
        )
}

/// Every cell an entry's rectangle rules out has lost the value.
spec fn xwing_entry_applied(s: Seq<GameCell>, groups: CellGroups, e: XWingCoords) -> bool {
    forall|i: int|
        #![trigger groups.is_typed_peer(CellGroupType::StandardRow, e.top_left@, i)]
        #![trigger groups.is_typed_peer(CellGroupType::StandardRow, e.bottom_left@, i)]
        #![trigger groups.is_typed_peer(CellGroupType::StandardColumn, e.top_left@, i)]
        #![trigger groups.is_typed_peer(CellGroupType::StandardColumn, e.top_right@, i)]
        0 <= i < 81 && (groups.is_typed_peer(CellGroupType::StandardRow, e.top_left@, i)
            || groups.is_typed_peer(CellGroupType::StandardRow, e.bottom_left@, i)
            || groups.is_typed_peer(CellGroupType::StandardColumn, e.top_left@, i)
            || groups.is_typed_peer(CellGroupType::StandardColumn, e.top_right@, i)) && i
            != e.top_left@ && i != e.top_right@ && i != e.bottom_left@ && i != e.bottom_right@
            ==> !s[i].has(e.value@)
}

proof fn lemma_found_push(
    entries: Seq<XWingCoords>,
    e: XWingCoords,
    v: int,
    tlx: int,
    tly: int,
    brx: int,
    bry: int,
)
    requires
        xwing_found(entries, v, tlx, tly, brx, bry),
    ensures
        xwing_found(entries.push(e), v, tlx, tly, brx, bry),
{
    let m = choose|m: int|
        0 <= m < entries.len() && entry_matches(#[trigger] entries[m], v, tlx, tly, brx, bry);
    assert(entry_matches(entries.push(e)[m], v, tlx, tly, brx, bry));
}

/// Identifies and realizes the X-Wing strategy.
pub struct XWing {
    pub enabled: bool,
}

impl XWing {
    pub fn new_box(enabled: bool) -> (r: Box<Self>)
        ensures
            r.enabled == enabled,
    {
        Box::new(XWing { enabled })
    }

    pub fn is_enabled(&self) -> (r: bool)
        ensures
            r == self.enabled,
    {
        self.enabled
    }

    /// A change from this rule restarts the solving loop.
    pub fn always_continue(&self) -> (r: bool)
        ensures
            !r,
    {
        false
    }

    /// Scans the board for X-Wing rectangles, then erases the value from
    /// the remaining cells of the rectangles' rows and columns.
    ///
    /// The rule only erases candidates that some rectangle found on the
    /// entry board legitimately rules out, and reports a change exactly
    /// when the board changed.
    pub fn apply(&self, state: &mut GameState, groups: &CellGroups) -> (r: Result<
        StrategyResult,
        InvalidGameState,
    >)
        requires
            old(state).wf(),
            groups.wf(),
        ensures
            final(state).wf(),
            final(state)@.len() == 81,
            board_le(final(state)@, old(state)@),
            r is Ok,
            r == Ok::<StrategyResult, InvalidGameState>(StrategyResult::NoChange) <==> final(state)@ == old(state)@,
            forall|i: int, w: int|
                0 <= i < 81 && (#[trigger] old(state)@[i].has(w)) && !final(state)@[i].has(w)
                    ==> spec_xwing_targets(old(state)@, *groups, w, i),
            forall|i: int, w: int|
                0 <= i < 81 && #[trigger] spec_xwing_targets(old(state)@, *groups, w, i) ==> !final(state)@[i].has(w),
            board_decided(old(state)@) ==> r == Ok::<StrategyResult, InvalidGameState>(
                StrategyResult::NoChange,
            ),
    {
        let mut xwings: Vec<XWingCoords> = Vec::new();
        let mut v: u8 = 1;
        while v <= 9
            invariant
                1 <= v <= 10,
                state.wf(),
                state@.len() == 81,
                groups.wf(),
                state@ == old(state)@,
                board_decided(old(state)@) ==> xwings@.len() == 0,
                forall|m: int|
                    0 <= m < xwings@.len() ==> ({
                        let e = #[trigger] xwings@[m];
                        e.value.wf() && e.top_left.wf() && e.top_right.wf() && e.bottom_left.wf()
                            && e.bottom_right.wf() && xwing_entry_ok(old(state)@, e)
                    }),
                forall|v2: int, a: int, b: int, c: int, d: int|
                    1 <= v2 < v && #[trigger] is_xwing_at(old(state)@, v2, a, b, c, d)
                        ==> xwing_found(xwings@, v2, a, b, c, d),
            decreases 10 - v,
        {
            let value = Value::new(v);
            // Identify all the cells that are not solved and contain the value.
            let mut indexes = IndexBitSet::empty();
            let mut i: u8 = 0;
            while i < 81
                invariant
                    0 <= i <= 81,
                    state.wf(),
                    state@.len() == 81,
                    value.wf(),
                    value@ == v,
                    indexes.wf(),
                    forall|k: int| #[trigger] indexes.has(k) <==> (k < i && xw_cand(state@, v as int, k)),
                decreases 81 - i,
            {
                let idx = Index::new(i);
                let cell = state.get_at_index(idx);
                if !cell.is_solved() && cell.contains(value) {
                    indexes.insert(idx);
                }
                i = i + 1;
            }
            // A rectangle needs at least four matching cells.
            if indexes.len() < 4 {
                proof {
                    assert forall|a: int, b: int, c: int, d: int|
                        !is_xwing_at(old(state)@, v as int, a, b, c, d) by {
                        if is_xwing_at(old(state)@, v as int, a, b, c, d) {
                            assert(indexes.has(b * 9 + a) && indexes.has(b * 9 + c) && indexes.has(
                                d * 9 + a,
                            ) && indexes.has(d * 9 + c));
                            assert(b * 9 + a < b * 9 + c && b * 9 + c < d * 9 + a && d * 9 + a < d
                                * 9 + c);
                            indexes.lemma_card_members4(b * 9 + a, b * 9 + c, d * 9 + a, d * 9 + c);
                            assert(false);
                        }
                    }
                }
                v = v + 1;
                continue;
            }
            // For each matching cell, scan for rectangles.
            let mut tl: u8 = 0;
            while tl < 81
                invariant
                    0 <= tl <= 81,
                    state.wf(),
                    state@.len() == 81,
                    groups.wf(),
                    state@ == old(state)@,
                    value.wf(),
                    value@ == v,
                    1 <= v <= 9,
                    board_decided(old(state)@) ==> xwings@.len() == 0,
                    indexes.wf(),
                    forall|k: int|
                        #[trigger] indexes.has(k) <==> (0 <= k < 81 && xw_cand(state@, v as int, k)),
                    forall|m: int|
                        0 <= m < xwings@.len() ==> ({
                            let e = #[trigger] xwings@[m];
                            e.value.wf() && e.top_left.wf() && e.top_right.wf()
                                && e.bottom_left.wf() && e.bottom_right.wf() && xwing_entry_ok(
                                old(state)@,
                                e,
                            )
                        }),
                    forall|v2: int, a: int, b: int, c: int, d: int|
                        1 <= v2 < v && #[trigger] is_xwing_at(old(state)@, v2, a, b, c, d)
                            ==> xwing_found(xwings@, v2, a, b, c, d),
                    forall|a: int, b: int, c: int, d: int|
                        #[trigger] is_xwing_at(old(state)@, v as int, a, b, c, d) && b * 9 + a < tl
                            as int ==> xwing_found(xwings@, v as int, a, b, c, d),
                decreases 81 - tl,
            {
                let tldx = Index::new(tl);
                if !indexes.contains(tldx) {
                    proof {
                        assert forall|a: int, b: int, c: int, d: int|
                            #[trigger] is_xwing_at(old(state)@, v as int, a, b, c, d) && b * 9 + a
                                < tl as int + 1 implies xwing_found(
                            xwings@,
                            v as int,
                            a,
                            b,
                            c,
                            d,
                        ) by {
                            if b * 9 + a == tl as int {
                                assert(indexes.has(tl as int));
                                assert(false);
                            }
                        }
                    }
                    tl = tl + 1;
                    continue;
                }
                let tlx = tl % 9;
                let tly = tl / 9;
                let mut x: u8 = tlx + 1;
                while x < 9
                    invariant
                        tlx < x <= 9,
                        state.wf(),
                        state@.len() == 81,
                        groups.wf(),
                        state@ == old(state)@,
                        value.wf(),
                        value@ == v,
                        1 <= v <= 9,
                        board_decided(old(state)@) ==> xwings@.len() == 0,
                        tlx < 9,
                        tly < 9,
                        tl == tly * 9 + tlx,
                        tldx@ == tl as int,
                        indexes.wf(),
                        indexes.has(tl as int),
                        forall|k: int|
                            #[trigger] indexes.has(k) <==> (0 <= k < 81 && xw_cand(
                                state@,
                                v as int,
                                k,
                            )),
                        forall|m: int|
                            0 <= m < xwings@.len() ==> ({
                                let e = #[trigger] xwings@[m];
                                e.value.wf() && e.top_left.wf() && e.top_right.wf()
                                    && e.bottom_left.wf() && e.bottom_right.wf() && xwing_entry_ok(
                                    old(state)@,
                                    e,
                                )
                            }),
                        forall|v2: int, a: int, b: int, c: int, d: int|
                            1 <= v2 < v && #[trigger] is_xwing_at(old(state)@, v2, a, b, c, d)
                                ==> xwing_found(xwings@, v2, a, b, c, d),
                        forall|a: int, b: int, c: int, d: int|
                            #[trigger] is_xwing_at(old(state)@, v as int, a, b, c, d) && b * 9 + a
                                < tl as int ==> xwing_found(xwings@, v as int, a, b, c, d),
                        forall|c: int, d: int|
                            #[trigger] is_xwing_at(
                                old(state)@,
                                v as int,
                                tlx as int,
                                tly as int,
                                c,
                                d,
                            ) && c < x as int ==> xwing_found(
                                xwings@,
                                v as int,
                                tlx as int,
                                tly as int,
                                c,
                                d,
                            ),
                    decreases 9 - x,
                {
                    if !indexes.contains_xy(x, tly) {
                        proof {
                            assert forall|c: int, d: int|
                                #[trigger] is_xwing_at(
                                    old(state)@,
                                    v as int,
                                    tlx as int,
                                    tly as int,
                                    c,
                                    d,
                                ) && c < x as int + 1 implies xwing_found(
                                xwings@,
                                v as int,
                                tlx as int,
                                tly as int,
                                c,
                                d,
                            ) by {
                                if c == x as int {
                                    assert(indexes.has(tly as int * 9 + x as int));
                                    assert(false);
                                }
                            }
                        }
                        x = x + 1;
                        continue;
                    }
                    let mut y: u8 = tly + 1;
                    while y < 9
                        invariant
                            tly < y <= 9,
                            state.wf(),
                            state@.len() == 81,
                            groups.wf(),
                            state@ == old(state)@,
                            value.wf(),
                            value@ == v,
                            1 <= v <= 9,
                            board_decided(old(state)@) ==> xwings@.len() == 0,
                            tlx < x < 9,
                            tly < 9,
                            tl == tly * 9 + tlx,
                            tldx@ == tl as int,
                            indexes.wf(),
                            indexes.has(tl as int),
                            indexes.has(tly * 9 + x),
                            forall|k: int|
                                #[trigger] indexes.has(k) <==> (0 <= k < 81 && xw_cand(
                                    state@,
                                    v as int,
                                    k,
                                )),
                            forall|m: int|
                                0 <= m < xwings@.len() ==> ({
                                    let e = #[trigger] xwings@[m];
                                    e.value.wf() && e.top_left.wf() && e.top_right.wf()
                                        && e.bottom_left.wf() && e.bottom_right.wf()
                                        && xwing_entry_ok(old(state)@, e)
                                }),
                            forall|v2: int, a: int, b: int, c: int, d: int|
                                1 <= v2 < v && #[trigger] is_xwing_at(old(state)@, v2, a, b, c, d)
                                    ==> xwing_found(xwings@, v2, a, b, c, d),
                            forall|a: int, b: int, c: int, d: int|
                                #[trigger] is_xwing_at(old(state)@, v as int, a, b, c, d) && b * 9
                                    + a < tl as int ==> xwing_found(xwings@, v as int, a, b, c, d),
                            forall|c: int, d: int|
                                #[trigger] is_xwing_at(
                                    old(state)@,
                                    v as int,
                                    tlx as int,
                                    tly as int,
                                    c,
                                    d,
                                ) && c < x as int ==> xwing_found(
                                    xwings@,
                                    v as int,
                                    tlx as int,
                                    tly as int,
                                    c,
                                    d,
                                ),
                            forall|d: int|
                                #[trigger] is_xwing_at(
                                    old(state)@,
                                    v as int,
                                    tlx as int,
                                    tly as int,
                                    x as int,
                                    d,
                                ) && d < y as int ==> xwing_found(
                                    xwings@,
                                    v as int,
                                    tlx as int,
                                    tly as int,
                                    x as int,
                                    d,
                                ),
                        decreases 9 - y,
                    {
                        let has_bl = indexes.contains_xy(tlx, y);
                        let has_br = indexes.contains_xy(x, y);
                        if !(has_bl && has_br) {
                            proof {
                                if is_xwing_at(
                                    old(state)@,
                                    v as int,
                                    tlx as int,
                                    tly as int,
                                    x as int,
                                    y as int,
                                ) {
                                    assert(indexes.has(y as int * 9 + tlx as int));
                                    assert(indexes.has(y as int * 9 + x as int));
                                    assert(false);
                                }
                            }
                            y = y + 1;
                            continue;
                        }
                        // Count occurrences over both rows and both columns.
                        let mut top_count: u8 = 0;
                        let mut bottom_count: u8 = 0;
                        let mut left_count: u8 = 0;
                        let mut right_count: u8 = 0;
                        let mut xy: u8 = 0;
                        while xy < 9
                            invariant
                                0 <= xy <= 9,
                                state.wf(),
                                state@.len() == 81,
                                value@ == v,
                                1 <= v <= 9,
                                tlx < x < 9,
                                tly < y < 9,
                                indexes.wf(),
                                forall|k: int|
                                    #[trigger] indexes.has(k) <==> (0 <= k < 81 && xw_cand(
                                        state@,
                                        v as int,
                                        k,
                                    )),
                                top_count == xw_row_count_upto(state@, v as int, tly as int, xy as int),
                                bottom_count == xw_row_count_upto(state@, v as int, y as int, xy as int),
                                left_count == xw_col_count_upto(state@, v as int, tlx as int, xy as int),
                                right_count == xw_col_count_upto(state@, v as int, x as int, xy as int),
                                top_count <= xy && bottom_count <= xy && left_count <= xy
                                    && right_count <= xy,
                            decreases 9 - xy,
                        {
                            if indexes.contains_xy(xy, tly) {
                                top_count = top_count + 1;
                            }
                            if indexes.contains_xy(xy, y) {
                                bottom_count = bottom_count + 1;
                            }
                            if indexes.contains_xy(tlx, xy) {
                                left_count = left_count + 1;
                            }
                            if indexes.contains_xy(x, xy) {
                                right_count = right_count + 1;
                            }
                            xy = xy + 1;
                        }
                        // Only two matches may exist in both rows or both columns.
                        if !(left_count == 2 && right_count == 2) && !(top_count == 2
                            && bottom_count == 2) {
                            proof {
                                assert(!is_xwing_at(
                                    old(state)@,
                                    v as int,
                                    tlx as int,
                                    tly as int,
                                    x as int,
                                    y as int,
                                ));
                            }
                            y = y + 1;
                            continue;
                        }
                        let ghost xbefore = xwings@;
                        xwings.push(
                            XWingCoords {
                                value,
                                top_left: tldx,
                                top_right: Index::new(tly * 9 + x),
                                bottom_left: Index::new(y * 9 + tlx),
                                bottom_right: Index::new(y * 9 + x),
                            },
                        );
                        proof {
                            let e = xwings@[xbefore.len() as int];
                            assert(is_xwing_at(
                                state@,
                                v as int,
                                tlx as int,
                                tly as int,
                                x as int,
                                y as int,
                            ));
                            assert(!board_decided(old(state)@)) by {
                                let pv = old(state)@[tl as int].possible_values;
                                assert(old(state)@[tl as int].card() != 1 && old(
                                    state,
                                )@[tl as int].has(v as int));
                                pv.lemma_card_zero();
                                pv.lemma_card_bounds();
                                assert(old(state)@[tl as int].card() >= 2);
                            }
                            assert(e.value == value && e.top_left == tldx);
                            assert(e.value@ == v as int);
                            assert(is_xwing_at(
                                old(state)@,
                                e.value@,
                                tlx as int,
                                tly as int,
                                x as int,
                                y as int,
                            ));
                            assert(e.top_left@ == (tly as int) * 9 + tlx as int);
                            assert(e.top_right@ == (tly as int) * 9 + x as int);
                            assert(e.bottom_left@ == (y as int) * 9 + tlx as int);
                            assert(e.bottom_right@ == (y as int) * 9 + x as int);
                            assert(entry_matches(
                                e,
                                v as int,
                                tlx as int,
                                tly as int,
                                x as int,
                                y as int,
                            ));
                            assert(xwing_entry_ok(old(state)@, e));
                            assert(xwing_found(
                                xwings@,
                                v as int,
                                tlx as int,
                                tly as int,
                                x as int,
                                y as int,
                            ));
                            assert forall|m: int|
                                0 <= m < xwings@.len() implies ({
                                let ee = #[trigger] xwings@[m];
                                ee.value.wf() && ee.top_left.wf() && ee.top_right.wf()
                                    && ee.bottom_left.wf() && ee.bottom_right.wf()
                                    && xwing_entry_ok(old(state)@, ee)
                            }) by {
                                if m < xbefore.len() {
                                    assert(xwings@[m] == xbefore[m]);
                                }
                            }
                            assert forall|v2: int, a: int, b: int, c: int, d: int|
                                xwing_found(xbefore, v2, a, b, c, d) implies xwing_found(
                                xwings@,
                                v2,
                                a,
                                b,
                                c,
                                d,
                            ) by {
                                assert(xbefore.push(e) =~= xwings@);
                                lemma_found_push(xbefore, e, v2, a, b, c, d);
                            }
                        }
                        y = y + 1;
                    }
                    x = x + 1;
                }
                tl = tl + 1;
            }
            v = v + 1;
        }
        // Erase each rectangle's value from its rows and columns.
        let mut applied_some = false;
        let ghost mut wit_j: int = 0;
        let ghost mut wit_w: int = 0;
        let mut t: usize = 0;
        while t < xwings.len()
            invariant
                0 <= t <= xwings@.len(),
                state.wf(),
                state@.len() == 81,
                old(state).wf(),
                groups.wf(),
                board_le(state@, old(state)@),
                !applied_some ==> state@ == old(state)@,
                applied_some ==> 0 <= wit_j < 81 && old(state)@[wit_j].has(wit_w)
                    && !state@[wit_j].has(wit_w),
                forall|i: int, w: int|
                    0 <= i < 81 && (#[trigger] old(state)@[i].has(w)) && !state@[i].has(w)
                        ==> spec_xwing_targets(old(state)@, *groups, w, i),
                forall|m: int|
                    0 <= m < xwings@.len() ==> ({
                        let e = #[trigger] xwings@[m];
                        e.value.wf() && e.top_left.wf() && e.top_right.wf() && e.bottom_left.wf()
                            && e.bottom_right.wf() && xwing_entry_ok(old(state)@, e)
                    }),
                forall|v2: int, a: int, b: int, c: int, d: int|
                    1 <= v2 < 10 && #[trigger] is_xwing_at(old(state)@, v2, a, b, c, d)
                        ==> xwing_found(xwings@, v2, a, b, c, d),
                forall|m: int|
                    0 <= m < t ==> xwing_entry_applied(state@, *groups, #[trigger] xwings@[m]),
            decreases xwings@.len() - t,
        {
            let xw_value = xwings[t].value;
            let xw_tl = xwings[t].top_left;
            let xw_tr = xwings[t].top_right;
            let xw_bl = xwings[t].bottom_left;
            let xw_br = xwings[t].bottom_right;
            let row_tl = groups.get_peer_indexes(xw_tl, CellGroupType::StandardRow);
            let row_bl = groups.get_peer_indexes(xw_bl, CellGroupType::StandardRow);
            let col_tl = groups.get_peer_indexes(xw_tl, CellGroupType::StandardColumn);
            let col_tr = groups.get_peer_indexes(xw_tr, CellGroupType::StandardColumn);
            let peers = row_tl.with_union(&row_bl).with_union(&col_tl).with_union(&col_tr);
            let mut j: u8 = 0;
            while j < 81
                invariant
                    0 <= j <= 81,
                    state.wf(),
                    state@.len() == 81,
                    old(state).wf(),
                    groups.wf(),
                    peers.wf(),
                    xw_value.wf(),
                    xw_tl.wf(),
                    xw_tr.wf(),
                    xw_bl.wf(),
                    xw_br.wf(),
                    xwing_entry_ok(old(state)@, xwings@[t as int]),
                    xwings@[t as int].value == xw_value,
                    xwings@[t as int].top_left == xw_tl,
                    xwings@[t as int].top_right == xw_tr,
                    xwings@[t as int].bottom_left == xw_bl,
                    xwings@[t as int].bottom_right == xw_br,
                    0 <= t < xwings@.len(),
                    forall|k: int|
                        #[trigger] peers.has(k) <==> (groups.is_typed_peer(
                            CellGroupType::StandardRow,
                            xw_tl@,
                            k,
                        ) || groups.is_typed_peer(CellGroupType::StandardRow, xw_bl@, k)
                            || groups.is_typed_peer(CellGroupType::StandardColumn, xw_tl@, k)
                            || groups.is_typed_peer(CellGroupType::StandardColumn, xw_tr@, k)),
                    board_le(state@, old(state)@),
                    !applied_some ==> state@ == old(state)@,
                    applied_some ==> 0 <= wit_j < 81 && old(state)@[wit_j].has(wit_w)
                        && !state@[wit_j].has(wit_w),
                    forall|i: int, w: int|
                        0 <= i < 81 && (#[trigger] old(state)@[i].has(w)) && !state@[i].has(w)
                            ==> spec_xwing_targets(old(state)@, *groups, w, i),
                    forall|m: int|
                        0 <= m < t ==> xwing_entry_applied(state@, *groups, #[trigger] xwings@[m]),
                    forall|i: int|
                        0 <= i < j as int && #[trigger] peers.has(i) && i != xw_tl@ && i != xw_tr@
                            && i != xw_bl@ && i != xw_br@ ==> !state@[i].has(xw_value@),
                decreases 81 - j,
            {
                let jdx = Index::new(j);
                if peers.contains(jdx) && j != xw_tl.get() && j != xw_tr.get() && j != xw_bl.get()
                    && j != xw_br.get() {
                    let ghost before = state@;
                    let removed = state.forget_at_index(jdx, xw_value);
                    proof {
                        if removed && !applied_some {
                            wit_j = j as int;
                            wit_w = xw_value@;
                        }
                        assert(board_le(state@, old(state)@)) by {
                            assert forall|i: int, w: int|
                                0 <= i < 81 && (#[trigger] state@[i].has(w)) implies old(state)@[i].has(w) by {
                                assert(before[i].has(w));
                            }
                        }
                        assert forall|i: int, w: int|
                            0 <= i < 81 && (#[trigger] old(state)@[i].has(w)) && !state@[i].has(
                                w,
                            ) implies spec_xwing_targets(old(state)@, *groups, w, i) by {
                            if before[i].has(w) {
                                assert(i == j as int && w == xw_value@);
                                let (tlx, tly, brx, bry) = choose|
                                    tlx: int,
                                    tly: int,
                                    brx: int,
                                    bry: int,
                                |
                                    #[trigger] is_xwing_at(
                                        old(state)@,
                                        xw_value@,
                                        tlx,
                                        tly,
                                        brx,
                                        bry,
                                    ) && xw_tl@ == tly * 9 + tlx && xw_tr@ == tly * 9 + brx
                                        && xw_bl@ == bry * 9 + tlx && xw_br@ == bry * 9 + brx;
                                assert(is_xwing_at(old(state)@, w, tlx, tly, brx, bry) && i != tly
                                    * 9 + tlx && i != tly * 9 + brx && i != bry * 9 + tlx && i
                                    != bry * 9 + brx && (groups.is_typed_peer(
                                    CellGroupType::StandardRow,
                                    tly * 9 + tlx,
                                    i,
                                ) || groups.is_typed_peer(
                                    CellGroupType::StandardRow,
                                    bry * 9 + tlx,
                                    i,
                                ) || groups.is_typed_peer(
                                    CellGroupType::StandardColumn,
                                    tly * 9 + tlx,
                                    i,
                                ) || groups.is_typed_peer(
                                    CellGroupType::StandardColumn,
                                    tly * 9 + brx,
                                    i,
                                )));
                            }
                        }
                        assert forall|m: int|
                            0 <= m < t implies xwing_entry_applied(
                            state@,
                            *groups,
                            #[trigger] xwings@[m],
                        ) by {
                            let e = xwings@[m];
                            assert(xwing_entry_applied(before, *groups, e));
                            assert forall|i: int|
                                #![trigger groups.is_typed_peer(CellGroupType::StandardRow, e.top_left@, i)]
                                #![trigger groups.is_typed_peer(CellGroupType::StandardRow, e.bottom_left@, i)]
                                #![trigger groups.is_typed_peer(CellGroupType::StandardColumn, e.top_left@, i)]
                                #![trigger groups.is_typed_peer(CellGroupType::StandardColumn, e.top_right@, i)]
                                0 <= i < 81 && (groups.is_typed_peer(
                                    CellGroupType::StandardRow,
                                    e.top_left@,
                                    i,
                                ) || groups.is_typed_peer(
                                    CellGroupType::StandardRow,
                                    e.bottom_left@,
                                    i,
                                ) || groups.is_typed_peer(
                                    CellGroupType::StandardColumn,
                                    e.top_left@,
                                    i,
                                ) || groups.is_typed_peer(
                                    CellGroupType::StandardColumn,
                                    e.top_right@,
                                    i,
                                )) && i != e.top_left@ && i != e.top_right@ && i != e.bottom_left@
                                    && i != e.bottom_right@ implies !state@[i].has(e.value@) by {
                                if state@[i].has(e.value@) {
                                    assert(before[i].has(e.value@));
                                }
                            }
                        }
                    }
                    applied_some = applied_some || removed;
                }
                j = j + 1;
            }
            proof {
                assert(xwing_entry_applied(state@, *groups, xwings@[t as int])) by {
                    let e = xwings@[t as int];
                    assert forall|i: int|
                        #![trigger groups.is_typed_peer(CellGroupType::StandardRow, e.top_left@, i)]
                        #![trigger groups.is_typed_peer(CellGroupType::StandardRow, e.bottom_left@, i)]
                        #![trigger groups.is_typed_peer(CellGroupType::StandardColumn, e.top_left@, i)]
                        #![trigger groups.is_typed_peer(CellGroupType::StandardColumn, e.top_right@, i)]
                        0 <= i < 81 && (groups.is_typed_peer(
                            CellGroupType::StandardRow,
                            e.top_left@,
                            i,
                        ) || groups.is_typed_peer(CellGroupType::StandardRow, e.bottom_left@, i)
                            || groups.is_typed_peer(CellGroupType::StandardColumn, e.top_left@, i)
                            || groups.is_typed_peer(
                            CellGroupType::StandardColumn,
                            e.top_right@,
                            i,
                        )) && i != e.top_left@ && i != e.top_right@ && i != e.bottom_left@ && i
                        != e.bottom_right@ implies !state@[i].has(e.value@) by {
                        assert(peers.has(i));
                    }
                }
            }
            t = t + 1;
        }
        proof {
            if applied_some {
                lemma_board_neq(old(state)@, state@, wit_j, wit_w);
            }
            assert forall|i: int, w: int|
                0 <= i < 81 && #[trigger] spec_xwing_targets(old(state)@, *groups, w, i) implies
                !state@[i].has(w) by {
                let (tlx, tly, brx, bry) = choose|tlx: int, tly: int, brx: int, bry: int|
                    #[trigger] is_xwing_at(old(state)@, w, tlx, tly, brx, bry) && i != tly * 9 + tlx
                        && i != tly * 9 + brx && i != bry * 9 + tlx && i != bry * 9 + brx && (
                    groups.is_typed_peer(CellGroupType::StandardRow, tly * 9 + tlx, i)
                        || groups.is_typed_peer(CellGroupType::StandardRow, bry * 9 + tlx, i)
                        || groups.is_typed_peer(CellGroupType::StandardColumn, tly * 9 + tlx, i)
                        || groups.is_typed_peer(CellGroupType::StandardColumn, tly * 9 + brx, i));
                assert(old(state)@[tly * 9 + tlx].has(w));
                assert(1 <= w <= 9);
                assert(xwing_found(xwings@, w, tlx, tly, brx, bry));
                let m = choose|m: int|
                    0 <= m < xwings@.len() && entry_matches(
                        #[trigger] xwings@[m],
                        w,
                        tlx,
                        tly,
                        brx,
                        bry,
                    );
                let e = xwings@[m];
                assert(xwing_entry_applied(state@, *groups, e));
                assert(e.top_left@ == tly * 9 + tlx && e.top_right@ == tly * 9 + brx
                    && e.bottom_left@ == bry * 9 + tlx && e.bottom_right@ == bry * 9 + brx
                    && e.value@ == w);
                assert(groups.is_typed_peer(CellGroupType::StandardRow, e.top_left@, i)
                    || groups.is_typed_peer(CellGroupType::StandardRow, e.bottom_left@, i)
                    || groups.is_typed_peer(CellGroupType::StandardColumn, e.top_left@, i)
                    || groups.is_typed_peer(CellGroupType::StandardColumn, e.top_right@, i));
            }
        }
        if applied_some {
            Ok(StrategyResult::AppliedChange)
        } else {
            Ok(StrategyResult::NoChange)
        }
    }
}

} // verus!
