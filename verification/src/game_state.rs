//! The board: 81 cells of remaining candidate values.

use crate::cell_group::{CellGroup, CellGroups, CollectIndexes};
use crate::coordinate::Coordinate;
use crate::game_cell::{GameCell, IndexedGameCell};
use crate::index::{Index, IndexBitSet};
use crate::value::{Value, ValueBitSet};
use vstd::prelude::*;

verus! {

/// The error signaling that a search branch reached a self-contradictory
/// board.
#[derive(Debug)]
pub struct InvalidGameState {}

/// A full board of 81 cells.
#[derive(Debug)]
pub struct GameState {
    pub cells: Vec<GameCell>,
}

impl View for GameState {
    type V = Seq<GameCell>;

    open spec fn view(&self) -> Seq<GameCell> {
        self.cells@
    }
}

/// A well-formed board: 81 cells, each with only value bits set.
pub open spec fn board_wf(s: Seq<GameCell>) -> bool {
    s.len() == 81 && (forall|i: int| 0 <= i < 81 ==> (#[trigger] s[i]).wf())
}

/// The two cells share no candidate.
pub open spec fn cells_disjoint(a: GameCell, b: GameCell) -> bool {
    forall|w: int| !((#[trigger] a.has(w)) && b.has(w))
}

/// A solved board: every cell holds exactly one candidate and no two
/// cells of a common group hold the same one.
pub open spec fn spec_solved(s: Seq<GameCell>, groups: CellGroups) -> bool {
    &&& forall|i: int| 0 <= i < 81 ==> (#[trigger] s[i]).card() == 1
    &&& forall|i: int, j: int|
        0 <= i < 81 && 0 <= j < 81 && i != j && #[trigger] groups.is_peer(i, j) ==> cells_disjoint(
            s[i],
            s[j],
        )
}

/// A consistent board: no cell is empty, and no two solved cells of a
/// common group hold the same value. This is a heuristic check, not a
/// guarantee of global solvability.
pub open spec fn spec_consistent(s: Seq<GameCell>, groups: CellGroups) -> bool {
    &&& forall|i: int| 0 <= i < 81 ==> (#[trigger] s[i]).card() > 0
    &&& forall|i: int, j: int|
        0 <= i < 81 && 0 <= j < 81 && i != j && #[trigger] groups.is_peer(i, j) && s[i].card() == 1
            && s[j].card() == 1 ==> cells_disjoint(s[i], s[j])
}

impl GameState {
    pub open spec fn wf(self) -> bool {
        board_wf(self@)
    }

    /// An all-open board: every cell still admits every value.
    pub fn new() -> (r: Self)
        ensures
            r.wf(),
            forall|i: int, w: int| 0 <= i < 81 ==> ((#[trigger] r@[i].has(w)) <==> 1 <= w <= 9),
    {
        let mut cells: Vec<GameCell> = Vec::new();
        let mut i: usize = 0;
        while i < 81
            invariant
                0 <= i <= 81,
                cells@.len() == i,
                forall|k: int| 0 <= k < i ==> (#[trigger] cells@[k]).wf(),
                forall|k: int, w: int| 0 <= k < i ==> ((#[trigger] cells@[k].has(w)) <==> 1 <= w <= 9),
            decreases 81 - i,
        {
            cells.push(GameCell::default());
            i = i + 1;
        }
        GameState { cells }
    }

    /// A board from 81 optional clues; zero means an open cell.
    pub fn new_from(values: [u8; 81]) -> (r: Self)
        requires
            forall|k: int| 0 <= k < 81 ==> values@[k] <= 9,
        ensures
            r.wf(),
            forall|i: int, w: int|
                0 <= i < 81 && values@[i] == 0 ==> ((#[trigger] r@[i].has(w)) <==> 1 <= w <= 9),
            forall|i: int, w: int|
                0 <= i < 81 && 1 <= values@[i] <= 9 ==> ((#[trigger] r@[i].has(w)) <==> w
                    == values@[i]),
    {
        let mut cells: Vec<GameCell> = Vec::new();
        let mut i: usize = 0;
        while i < 81
            invariant
                0 <= i <= 81,
                cells@.len() == i,
                forall|k: int| 0 <= k < 81 ==> values@[k] <= 9,
                forall|k: int| 0 <= k < i ==> (#[trigger] cells@[k]).wf(),
                forall|k: int, w: int|
                    0 <= k < i && values@[k] == 0 ==> ((#[trigger] cells@[k].has(w)) <==> 1 <= w
                        <= 9),
                forall|k: int, w: int|
                    0 <= k < i && 1 <= values@[k] <= 9 ==> ((#[trigger] cells@[k].has(w)) <==> w
                        == values@[k]),
            decreases 81 - i,
        {
            let v = values[i];
            if v == 0 {
                cells.push(GameCell::default());
            } else {
                cells.push(GameCell::from_value(Value::new(v)));
            }
            i = i + 1;
        }
        GameState { cells }
    }

    pub fn get_at_index(&self, index: Index) -> (r: GameCell)
        requires
            self.wf(),
            index.wf(),
        ensures
            r == self@[index@],
    {
        self.cells[index.get() as usize]
    }

    pub fn get_at_coord(&self, coord: Coordinate) -> (r: GameCell)
        requires
            self.wf(),
            coord.wf(),
        ensures
            r == self@[coord.y * 9 + coord.x],
    {
        self.get_at_index(coord.into_index())
    }

    pub fn get_at_xy(&self, x: u8, y: u8) -> (r: GameCell)
        requires
            self.wf(),
            x < 9,
            y < 9,
        ensures
            r == self@[y * 9 + x],
    {
        self.get_at_coord(Coordinate::new(x, y))
    }

    /// Places a value at the specified cell, but does not propagate the
    /// changes through the board. Writing a value over a differently
    /// solved cell is a caller contract violation.
    pub fn set_at_index(&mut self, index: Index, value: Value) -> (r: bool)
        requires
            old(self).wf(),
            index.wf(),
            value.wf(),
            old(self)@[index@].card() == 1 ==> old(self)@[index@].has(value@),
        ensures
            final(self).wf(),
            final(self)@.len() == 81,
            r <==> (exists|w: int| #[trigger] old(self)@[index@].has(w) && w != value@),
            !r ==> final(self)@ == old(self)@,
            r ==> (forall|w: int| (#[trigger] final(self)@[index@].has(w)) <==> w == value@),
            r ==> final(self)@[index@].card() == 1,
            forall|j: int| 0 <= j < 81 && j != index@ ==> final(self)@[j] == old(self)@[j],
    {
        let i = index.get() as usize;
        let cell = self.cells[i];
        if cell.is_exactly(value) {
            return false;
        }
        self.cells[i] = GameCell::from_value(value);
        proof {
            assert(exists|w: int| #[trigger] old(self)@[index@].has(w) && w != value@) by {
                let w = choose|w: int| cell.has(w) && w != value@;
                assert(old(self)@[index@].has(w) && w != value@);
            }
        }
        true
    }

    /// Places a value at the specified cell, but does not propagate the changes.
    pub fn set_at_coord(&mut self, coord: Coordinate, value: Value)
        requires
            old(self).wf(),
            coord.wf(),
            value.wf(),
            old(self)@[coord.y * 9 + coord.x].card() == 1 ==> old(self)@[coord.y * 9 + coord.x].has(
                value@,
            ),
        ensures
            final(self).wf(),
            final(self)@.len() == 81,
            (forall|w: int| #[trigger] old(self)@[coord.y * 9 + coord.x].has(w) ==> w == value@) ==> final(self)@ == old(self)@,
            (exists|w: int| #[trigger] old(self)@[coord.y * 9 + coord.x].has(w) && w != value@) ==> (forall|
                w: int,
            |
                (#[trigger] final(self)@[coord.y * 9 + coord.x].has(w)) <==> w == value@),
            forall|j: int| 0 <= j < 81 && j != coord.y * 9 + coord.x ==> final(self)@[j] == old(self)@[j],
    {
        let index = coord.into_index();
        self.set_at_index(index, value);
    }

    /// Places a value at the specified cell, but does not propagate the changes.
    pub fn set_at_xy(&mut self, x: u8, y: u8, value: Value)
        requires
            old(self).wf(),
            x < 9,
            y < 9,
            value.wf(),
            old(self)@[y * 9 + x].card() == 1 ==> old(self)@[y * 9 + x].has(value@),
        ensures
            final(self).wf(),
            final(self)@.len() == 81,
            (forall|w: int| #[trigger] old(self)@[y * 9 + x].has(w) ==> w == value@) ==> final(self)@ == old(self)@,
            (exists|w: int| #[trigger] old(self)@[y * 9 + x].has(w) && w != value@) ==> (forall|w: int|
                (#[trigger] final(self)@[y * 9 + x].has(w)) <==> w == value@),
            forall|j: int| 0 <= j < 81 && j != y * 9 + x ==> final(self)@[j] == old(self)@[j],
    {
        self.set_at_coord(Coordinate::new(x, y), value);
    }

    /// Forgets a value at the specified cell. No changes are propagated,
    /// but the cell is treated as if the value was never an option.
    pub fn forget_at_index(&mut self, index: Index, value: Value) -> (r: bool)
        requires
            old(self).wf(),
            index.wf(),
            value.wf(),
        ensures
            final(self).wf(),
            final(self)@.len() == 81,
            r <==> old(self)@[index@].has(value@),
            !r ==> final(self)@ == old(self)@,
            forall|w: int|
                (#[trigger] final(self)@[index@].has(w)) <==> (old(self)@[index@].has(w) && w
                    != value@),
            forall|j: int| 0 <= j < 81 && j != index@ ==> final(self)@[j] == old(self)@[j],
    {
        let i = index.get() as usize;
        let cell = self.cells[i];
        if cell.contains(value) {
            self.cells[i] = cell.without_value(value);
            true
        } else {
            proof {
                assert forall|w: int|
                    (#[trigger] self@[index@].has(w)) <==> (old(self)@[index@].has(w) && w
                        != value@) by {
                    if self@[index@].has(w) && w == value@ {
                        assert(cell.has(value@));
                    }
                }
            }
            false
        }
    }

    /// Forgets a set of values at the specified cell without propagation.
    pub fn forget_many_at_index(&mut self, index: Index, values: ValueBitSet) -> (r: bool)
        requires
            old(self).wf(),
            index.wf(),
            values.wf(),
        ensures
            final(self).wf(),
            final(self)@.len() == 81,
            r <==> (exists|w: int| old(self)@[index@].has(w) && values.has(w)),
            !r ==> final(self)@ == old(self)@,
            forall|w: int|
                (#[trigger] final(self)@[index@].has(w)) <==> (old(self)@[index@].has(w)
                    && !values.has(w)),
            forall|j: int| 0 <= j < 81 && j != index@ ==> final(self)@[j] == old(self)@[j],
    {
        let i = index.get() as usize;
        let cell = self.cells[i];
        if cell.contains_some(values) {
            self.cells[i] = cell.without_values(values);
            true
        } else {
            proof {
                assert forall|w: int|
                    (#[trigger] self@[index@].has(w)) <==> (old(self)@[index@].has(w)
                        && !values.has(w)) by {
                    if self@[index@].has(w) && values.has(w) {
                        assert(cell.has(w) && values.has(w));
                    }
                }
            }
            false
        }
    }

    /// Overwrites a cell's candidate set with the given values without
    /// propagation, reporting whether the cell actually changed.
    pub fn set_many_at_index(&mut self, index: Index, values: ValueBitSet) -> (r: bool)
        requires
            old(self).wf(),
            index.wf(),
            values.wf(),
        ensures
            final(self).wf(),
            final(self)@.len() == 81,
            final(self)@[index@].possible_values == values,
            r <==> old(self)@[index@].possible_values != values,
            !r ==> final(self)@ == old(self)@,
            forall|j: int| 0 <= j < 81 && j != index@ ==> final(self)@[j] == old(self)@[j],
    {
        let i = index.get() as usize;
        let cell = self.cells[i];
        if cell.to_bitset() == values {
            return false;
        }
        self.cells[i] = GameCell::from_values(values);
        true
    }

    /// Places a value at the specified cell and removes it from every
    /// peer, reporting whether anything changed.
    pub fn place_and_propagate_at_index(&mut self, index: Index, value: Value, groups: &CellGroups)
        -> (r: bool)
        requires
            old(self).wf(),
            index.wf(),
            value.wf(),
            groups.wf(),
            groups.has_peer(index@),
            old(self)@[index@].card() == 1 ==> old(self)@[index@].has(value@),
        ensures
            final(self).wf(),
            final(self)@.len() == 81,
            (forall|w: int| #[trigger] old(self)@[index@].has(w) ==> w == value@) ==> final(self)@[index@]
                == old(self)@[index@],
            (exists|w: int| #[trigger] old(self)@[index@].has(w) && w != value@) ==> (forall|w: int|
                (#[trigger] final(self)@[index@].has(w)) <==> w == value@),
            forall|j: int, w: int|
                0 <= j < 81 && j != index@ && groups.is_peer(index@, j) ==> ((
                #[trigger] final(self)@[j].has(w)) <==> (old(self)@[j].has(w) && w != value@)),
            forall|j: int|
                0 <= j < 81 && j != index@ && !groups.is_peer(index@, j) ==> final(self)@[j] == old(self)@[j],
            r <==> ((exists|w: int| #[trigger] old(self)@[index@].has(w) && w != value@) || (exists|j: int|
                0 <= j < 81 && j != index@ && groups.is_peer(index@, j) && old(self)@[j].has(
                    value@,
                ))),
    {
        let mut changed = self.set_at_index(index, value);
        let ghost afterset = self@;
        let peers_r = groups.get_peers_at_index(index, CollectIndexes::ExcludeSelf);
        proof {
            assert(peers_r is Ok) by {
                let j = choose|j: int| j != index@ && groups.is_peer(index@, j);
                assert(groups.is_peer(index@, j) && (CollectIndexes::ExcludeSelf
                    == CollectIndexes::ExcludeSelf ==> j != index@));
            }
        }
        let peers = match peers_r {
            Ok(p) => p,
            Err(_) => {
                proof {
                    assert(false);
                }
                IndexBitSet::empty()
            },
        };
        let mut j: u8 = 0;
        while j < 81
            invariant
                0 <= j <= 81,
                self.wf(),
                self@.len() == 81,
                index.wf(),
                value.wf(),
                peers.wf(),
                forall|k: int|
                    #[trigger] peers.has(k) <==> (groups.is_peer(index@, k) && k != index@),
                self@[index@] == afterset[index@],
                afterset.len() == 81,
                forall|k: int, w: int|
                    0 <= k < j && k != index@ && peers.has(k) ==> ((#[trigger] self@[k].has(w))
                        <==> (afterset[k].has(w) && w != value@)),
                forall|k: int|
                    0 <= k < 81 && (k >= j || !peers.has(k)) && k != index@ ==> self@[k]
                        == afterset[k],
                changed <==> ((exists|w: int| #[trigger] old(self)@[index@].has(w) && w != value@) || (exists|
                    k: int,
                |
                    0 <= k < j && k != index@ && #[trigger] peers.has(k) && afterset[k].has(
                        value@,
                    ))),
            decreases 81 - j,
        {
            let idx = Index::new(j);
            if peers.contains(idx) {
                let ghost selfbefore = self@;
                let ghost changedbefore = changed;
                let removed = self.forget_at_index(idx, value);
                changed = changed || removed;
                proof {
                    assert forall|k: int, w: int|
                        0 <= k < j + 1 && k != index@ && peers.has(k) implies ((
                    #[trigger] self@[k].has(w)) <==> (afterset[k].has(w) && w != value@)) by {
                        if k < j {
                            assert(self@[k] == selfbefore[k]);
                        } else {
                            assert(k == j && selfbefore[k] == afterset[k]);
                        }
                    }
                    assert(changed <==> ((exists|w: int|
                        old(self)@[index@].has(w) && w != value@) || (exists|k: int|
                        0 <= k < j + 1 && k != index@ && #[trigger] peers.has(k) && afterset[k].has(
                            value@,
                        )))) by {
                        if removed {
                            assert(afterset[j as int].has(value@) && peers.has(j as int));
                        }
                        if changed && !changedbefore && !removed {
                            assert(false);
                        }
                        if !changed {
                            if exists|k: int|
                                0 <= k < j + 1 && k != index@ && #[trigger] peers.has(k)
                                    && afterset[k].has(value@) {
                                let k = choose|k: int|
                                    0 <= k < j + 1 && k != index@ && #[trigger] peers.has(k)
                                        && afterset[k].has(value@);
                                if k == j {
                                    assert(removed);
                                }
                                assert(false);
                            }
                        }
                    }
                }
            } else {
                proof {
                    if exists|k: int|
                        0 <= k < j + 1 && k != index@ && #[trigger] peers.has(k) && afterset[k].has(
                            value@,
                        ) {
                        let k = choose|k: int|
                            0 <= k < j + 1 && k != index@ && #[trigger] peers.has(k)
                                && afterset[k].has(value@);
                        assert(k < j);
                    }
                }
            }
            j = j + 1;
        }
        proof {
            assert forall|k: int, w: int|
                0 <= k < 81 && k != index@ && groups.is_peer(index@, k) implies ((
            #[trigger] self@[k].has(w)) <==> (old(self)@[k].has(w) && w != value@)) by {
                assert(peers.has(k));
                assert(afterset[k] == old(self)@[k]);
            }
            assert forall|k: int|
                0 <= k < 81 && k != index@ && !groups.is_peer(index@, k) implies self@[k] == old(self)@[k] by {
                assert(!peers.has(k));
                assert(afterset[k] == old(self)@[k]);
            }
        }
        changed
    }

    /// Places a value at a coordinate and propagates the change.
    pub fn place_and_propagate_at_coord(&mut self, coord: Coordinate, value: Value, groups: &CellGroups)
        requires
            old(self).wf(),
            coord.wf(),
            value.wf(),
            groups.wf(),
            groups.has_peer(coord.y * 9 + coord.x),
            old(self)@[coord.y * 9 + coord.x].card() == 1 ==> old(self)@[coord.y * 9 + coord.x].has(
                value@,
            ),
        ensures
            final(self).wf(),
            final(self)@.len() == 81,
    {
        self.place_and_propagate_at_index(coord.into_index(), value, groups);
    }

    /// Places a value at a position and propagates the change.
    pub fn place_and_propagate_at_xy(&mut self, x: u8, y: u8, value: Value, groups: &CellGroups)
        requires
            old(self).wf(),
            x < 9,
            y < 9,
            value.wf(),
            groups.wf(),
            groups.has_peer(y * 9 + x),
            old(self)@[y * 9 + x].card() == 1 ==> old(self)@[y * 9 + x].has(value@),
        ensures
            final(self).wf(),
            final(self)@.len() == 81,
    {
        self.place_and_propagate_at_coord(Coordinate::new(x, y), value, groups);
    }
}

/// `b` is a solution embedded in `s`: a well-formed solved board whose
/// single values all survive among `s`'s candidates.
pub open spec fn embedded_solution(b: Seq<GameCell>, groups: CellGroups, s: Seq<GameCell>) -> bool {
    board_wf(b) && spec_solved(b, groups) && board_le(b, s)
}

/// A fully decided board: no cell holds two or more candidates. The
/// twin and X-Wing rules have nothing to scan on such a board.
pub open spec fn board_decided(s: Seq<GameCell>) -> bool {
    forall|i: int| 0 <= i < 81 ==> (#[trigger] s[i]).card() <= 1
}

/// A solved board is in particular consistent: its cells are decided
/// and no group repeats a value.
pub proof fn lemma_solved_is_consistent(s: Seq<GameCell>, groups: CellGroups)
    requires
        spec_solved(s, groups),
    ensures
        spec_consistent(s, groups),
{
}

/// Pointwise shrink: every candidate of `a` is a candidate of `b`.
/// Propagation and the deduction rules only move a board downward in
/// this order.
pub open spec fn board_le(a: Seq<GameCell>, b: Seq<GameCell>) -> bool {
    a.len() == 81 && b.len() == 81 && (forall|i: int, w: int|
        0 <= i < 81 ==> ((#[trigger] a[i].has(w)) ==> b[i].has(w)))
}

pub proof fn lemma_board_le_trans(a: Seq<GameCell>, b: Seq<GameCell>, c: Seq<GameCell>)
    requires
        board_le(a, b),
        board_le(b, c),
    ensures
        board_le(a, c),
{
}

/// A strict shrink loses at least one concrete candidate.
pub proof fn lemma_board_lt_witness(a: Seq<GameCell>, b: Seq<GameCell>)
    requires
        board_wf(a),
        board_wf(b),
        board_le(a, b),
        a != b,
    ensures
        exists|j: int, w: int| 0 <= j < 81 && (#[trigger] b[j].has(w)) && !a[j].has(w),
{
    if forall|j: int| 0 <= j < 81 ==> a[j] == b[j] {
        assert(a =~= b);
        assert(false);
    }
    let j = choose|j: int| 0 <= j < 81 && a[j] != b[j];
    if forall|w: int| #[trigger] a[j].has(w) <==> b[j].has(w) {
        assert forall|w: int| a[j].possible_values.has(w) <==> b[j].possible_values.has(w) by {
            assert(a[j].has(w) <==> b[j].has(w));
        }
        a[j].possible_values.lemma_ext(b[j].possible_values);
        assert(a[j] == b[j]);
        assert(false);
    }
    let w = choose|w: int| !(#[trigger] a[j].has(w) <==> b[j].has(w));
    assert(b[j].has(w) && !a[j].has(w));
}

/// The board potential: the total number of candidates over all cells.
pub open spec fn board_pot_upto(s: Seq<GameCell>, k: int) -> int
    decreases k,
{
    if k <= 0 {
        0
    } else {
        board_pot_upto(s, k - 1) + s[k - 1].card()
    }
}

/// The board potential: the total number of candidates over all cells.
/// It shrinks under propagation and forking, which bounds the search.
pub open spec fn board_pot(s: Seq<GameCell>) -> int {
    board_pot_upto(s, 81)
}

proof fn lemma_board_pot_upto_le(a: Seq<GameCell>, b: Seq<GameCell>, k: int)
    requires
        board_le(a, b),
        0 <= k <= 81,
    ensures
        board_pot_upto(a, k) <= board_pot_upto(b, k),
    decreases k,
{
    if k > 0 {
        lemma_board_pot_upto_le(a, b, k - 1);
        assert forall|w: int| #[trigger] a[k - 1].possible_values.has(w) implies b[k
            - 1].possible_values.has(w) by {
            assert(a[k - 1].has(w));
        }
        a[k - 1].possible_values.lemma_card_subset(b[k - 1].possible_values);
    }
}

pub proof fn lemma_board_pot_le(a: Seq<GameCell>, b: Seq<GameCell>)
    requires
        board_le(a, b),
    ensures
        board_pot(a) <= board_pot(b),
{
    lemma_board_pot_upto_le(a, b, 81);
}

proof fn lemma_board_pot_upto_lt(a: Seq<GameCell>, b: Seq<GameCell>, k: int, j: int, w: int)
    requires
        board_le(a, b),
        0 <= j < k <= 81,
        b[j].has(w),
        !a[j].has(w),
    ensures
        board_pot_upto(a, k) < board_pot_upto(b, k),
    decreases k,
{
    if j == k - 1 {
        lemma_board_pot_upto_le(a, b, k - 1);
        assert forall|ww: int| #[trigger] a[k - 1].possible_values.has(ww) implies b[k
            - 1].possible_values.has(ww) by {
            assert(a[k - 1].has(ww));
        }
        assert(b[k - 1].possible_values.has(w) && !a[k - 1].possible_values.has(w));
        a[k - 1].possible_values.lemma_card_subset(b[k - 1].possible_values);
    } else {
        lemma_board_pot_upto_lt(a, b, k - 1, j, w);
        assert forall|ww: int| #[trigger] a[k - 1].possible_values.has(ww) implies b[k
            - 1].possible_values.has(ww) by {
            assert(a[k - 1].has(ww));
        }
        a[k - 1].possible_values.lemma_card_subset(b[k - 1].possible_values);
    }
}

/// A board that lost a candidate has strictly smaller potential.
pub proof fn lemma_board_pot_lt(a: Seq<GameCell>, b: Seq<GameCell>)
    requires
        board_wf(a),
        board_wf(b),
        board_le(a, b),
        a != b,
    ensures
        board_pot(a) < board_pot(b),
{
    lemma_board_lt_witness(a, b);
    let (j, w) = choose|j: int, w: int| 0 <= j < 81 && (#[trigger] b[j].has(w)) && !a[j].has(w);
    lemma_board_pot_upto_lt(a, b, 81, j, w);
}

proof fn lemma_board_pot_upto_bounds(s: Seq<GameCell>, k: int)
    requires
        0 <= k <= 81,
        board_wf(s),
    ensures
        0 <= board_pot_upto(s, k) <= 9 * k,
    decreases k,
{
    if k > 0 {
        lemma_board_pot_upto_bounds(s, k - 1);
        s[k - 1].possible_values.lemma_card_bounds();
    }
}

pub proof fn lemma_board_pot_bounds(s: Seq<GameCell>)
    requires
        board_wf(s),
    ensures
        0 <= board_pot(s) <= 729,
{
    lemma_board_pot_upto_bounds(s, 81);
}

/// Four staged shrinking passes: the end differs from the start exactly
/// when some stage changed the board.
pub proof fn lemma_staged_change(
    s0: Seq<GameCell>,
    s1: Seq<GameCell>,
    s2: Seq<GameCell>,
    s3: Seq<GameCell>,
    s4: Seq<GameCell>,
)
    requires
        board_wf(s0),
        board_wf(s1),
        board_wf(s2),
        board_wf(s3),
        board_wf(s4),
        board_le(s1, s0),
        board_le(s2, s1),
        board_le(s3, s2),
        board_le(s4, s3),
    ensures
        board_le(s4, s0),
        (s4 == s0) <==> (s1 == s0 && s2 == s1 && s3 == s2 && s4 == s3),
{
    lemma_board_le_trans(s2, s1, s0);
    lemma_board_le_trans(s3, s2, s0);
    lemma_board_le_trans(s4, s3, s0);
    if s1 != s0 || s2 != s1 || s3 != s2 || s4 != s3 {
        if s1 != s0 {
            lemma_board_pot_lt(s1, s0);
        } else {
            lemma_board_pot_le(s1, s0);
        }
        if s2 != s1 {
            lemma_board_pot_lt(s2, s1);
        } else {
            lemma_board_pot_le(s2, s1);
        }
        if s3 != s2 {
            lemma_board_pot_lt(s3, s2);
        } else {
            lemma_board_pot_le(s3, s2);
        }
        if s4 != s3 {
            lemma_board_pot_lt(s4, s3);
        } else {
            lemma_board_pot_le(s4, s3);
        }
        assert(board_pot(s4) < board_pot(s0));
        assert(s4 != s0);
    }
}

/// Boards that differ at one candidate are different.
pub proof fn lemma_board_neq(a: Seq<GameCell>, b: Seq<GameCell>, j: int, w: int)
    requires
        a.len() == b.len(),
        0 <= j < a.len(),
        a[j].has(w),
        !b[j].has(w),
    ensures
        a != b,
{
    if a == b {
        assert(a[j] == b[j]);
    }
}

impl GameState {
    /// Determines if this board state is a valid solution.
    pub fn is_solved(&self, groups: &CellGroups) -> (r: bool)
        requires
            self.wf(),
            groups.wf(),
            groups.peered(),
        ensures
            r <==> spec_solved(self@, *groups),
    {
        let mut i: u8 = 0;
        while i < 81
            invariant
                0 <= i <= 81,
                self.wf(),
                forall|k: int| 0 <= k < i ==> (#[trigger] self@[k]).card() == 1,
            decreases 81 - i,
        {
            let cell = self.get_at_index(Index::new(i));
            if !cell.is_solved() {
                return false;
            }
            i = i + 1;
        }
        let mut i: u8 = 0;
        while i < 81
            invariant
                0 <= i <= 81,
                self.wf(),
                groups.wf(),
                groups.peered(),
                forall|k: int| 0 <= k < 81 ==> (#[trigger] self@[k]).card() == 1,
                forall|a: int, b: int|
                    0 <= a < i && a < b < 81 && #[trigger] groups.is_peer(a, b) ==> cells_disjoint(
                        self@[a],
                        self@[b],
                    ),
            decreases 81 - i,
        {
            let idx = Index::new(i);
            let cell = self.get_at_index(idx);
            let peers_r = groups.get_peers_at_index(idx, CollectIndexes::ExcludeSelf);
            proof {
                assert(groups.has_peer(i as int));
                assert(peers_r is Ok) by {
                    let j = choose|j: int| j != i as int && groups.is_peer(i as int, j);
                    assert(groups.is_peer(i as int, j) && (CollectIndexes::ExcludeSelf
                        == CollectIndexes::ExcludeSelf ==> j != i as int));
                }
            }
            let peers = match peers_r {
                Ok(p) => p,
                Err(_) => {
                    proof {
                        assert(false);
                    }
                    IndexBitSet::empty()
                },
            };
            let mut j: u8 = i + 1;
            while j < 81
                invariant
                    i < j <= 81,
                    i < 81,
                    self.wf(),
                    groups.wf(),
                    peers.wf(),
                    cell == self@[i as int],
                    forall|k: int|
                        #[trigger] peers.has(k) <==> (groups.is_peer(i as int, k) && k != i as int),
                    forall|b: int|
                        i < b < j && #[trigger] groups.is_peer(i as int, b) ==> cells_disjoint(
                            self@[i as int],
                            self@[b],
                        ),
                decreases 81 - j,
            {
                let jdx = Index::new(j);
                if peers.contains(jdx) {
                    let peer_cell = self.get_at_index(jdx);
                    if peer_cell.contains_some(cell.to_bitset()) {
                        proof {
                            let w = choose|w: int| peer_cell.has(w) && cell.possible_values.has(w);
                            assert(self@[j as int].has(w) && self@[i as int].has(w));
                            assert(!spec_solved(self@, *groups));
                        }
                        return false;
                    }
                    proof {
                        assert forall|w: int|
                            !((#[trigger] self@[i as int].has(w)) && self@[j as int].has(w)) by {
                            if self@[i as int].has(w) && self@[j as int].has(w) {
                                assert(peer_cell.has(w) && cell.possible_values.has(w));
                            }
                        }
                    }
                } else {
                    proof {
                        assert(!groups.is_peer(i as int, j as int));
                    }
                }
                j = j + 1;
            }
            i = i + 1;
        }
        proof {
            assert forall|a: int, b: int|
                0 <= a < 81 && 0 <= b < 81 && a != b && #[trigger] groups.is_peer(a, b) implies
                cells_disjoint(self@[a], self@[b]) by {
                if a < b {
                } else {
                    assert(groups.is_peer(b, a)) by {
                        let g = choose|g: CellGroup|
                            #[trigger] groups.groups@.contains(g) && g.has(a) && g.has(b);
                        assert(groups.groups@.contains(g) && g.has(b) && g.has(a));
                    }
                    assert(cells_disjoint(self@[b], self@[a]));
                    assert forall|w: int|
                        !((#[trigger] self@[a].has(w)) && self@[b].has(w)) by {
                        assert(!(self@[b].has(w) && self@[a].has(w)));
                    }
                }
            }
        }
        true
    }

    /// Determines if this board state is consistent (i.e. doesn't
    /// violate the game rules) but does not check for a proper solution.
    pub fn is_consistent(&self, groups: &CellGroups) -> (r: bool)
        requires
            self.wf(),
            groups.wf(),
            forall|i: int| 0 <= i < 81 ==> groups.covered(i),
        ensures
            r <==> spec_consistent(self@, *groups),
    {
        let mut i: u8 = 0;
        while i < 81
            invariant
                0 <= i <= 81,
                self.wf(),
                forall|k: int| 0 <= k < i ==> (#[trigger] self@[k]).card() > 0,
            decreases 81 - i,
        {
            let cell = self.get_at_index(Index::new(i));
            proof {
                cell.possible_values.lemma_card_bounds();
            }
            if cell.is_impossible() {
                return false;
            }
            i = i + 1;
        }
        let mut i: u8 = 0;
        while i < 81
            invariant
                0 <= i <= 81,
                self.wf(),
                groups.wf(),
                forall|k: int| 0 <= k < 81 ==> groups.covered(k),
                forall|k: int| 0 <= k < 81 ==> (#[trigger] self@[k]).card() > 0,
                forall|a: int, b: int|
                    0 <= a < i && 0 <= b < 81 && a != b && #[trigger] groups.is_peer(a, b)
                        && self@[a].card() == 1 && self@[b].card() == 1 ==> cells_disjoint(
                        self@[a],
                        self@[b],
                    ),
            decreases 81 - i,
        {
            let idx = Index::new(i);
            let cell = self.get_at_index(idx);
            if !cell.is_solved() {
                i = i + 1;
                continue;
            }
            let peers_r = groups.get_peers_at_index(idx, CollectIndexes::IncludeSelf);
            proof {
                assert(peers_r is Ok) by {
                    assert(groups.covered(i as int));
                    assert(groups.is_peer(i as int, i as int) && (CollectIndexes::IncludeSelf
                        == CollectIndexes::ExcludeSelf ==> i as int != i as int));
                }
            }
            let peers = match peers_r {
                Ok(p) => p,
                Err(_) => {
                    proof {
                        assert(false);
                    }
                    IndexBitSet::empty()
                },
            };
            let mut j: u8 = 0;
            while j < 81
                invariant
                    0 <= j <= 81,
                    i < 81,
                    self.wf(),
                    groups.wf(),
                    peers.wf(),
                    cell == self@[i as int],
                    cell.card() == 1,
                    forall|k: int| #[trigger] peers.has(k) <==> groups.is_peer(i as int, k),
                    forall|b: int|
                        0 <= b < j && b != i as int && #[trigger] groups.is_peer(i as int, b)
                            && self@[b].card() == 1 ==> cells_disjoint(self@[i as int], self@[b]),
                decreases 81 - j,
            {
                if j == i {
                    j = j + 1;
                    continue;
                }
                let jdx = Index::new(j);
                if peers.contains(jdx) {
                    let peer_cell = self.get_at_index(jdx);
                    if peer_cell.is_solved() {
                        if cell.contains_all(peer_cell.to_bitset()) {
                            proof {
                                peer_cell.possible_values.lemma_card_one();
                                let w = choose|w: int|
                                    peer_cell.possible_values.has(w) && (forall|ww: int|
                                        peer_cell.possible_values.has(ww) ==> ww == w);
                                assert(self@[j as int].has(w) && self@[i as int].has(w));
                                assert(!spec_consistent(self@, *groups));
                            }
                            return false;
                        }
                        proof {
                            peer_cell.possible_values.lemma_card_one();
                            let w0 = choose|w: int|
                                peer_cell.possible_values.has(w) && (forall|ww: int|
                                    peer_cell.possible_values.has(ww) ==> ww == w);
                            let wmiss = choose|w: int|
                                peer_cell.possible_values.has(w) && !cell.possible_values.has(w);
                            assert forall|w: int|
                                !((#[trigger] self@[i as int].has(w)) && self@[j as int].has(
                                    w,
                                )) by {
                                if self@[i as int].has(w) && self@[j as int].has(w) {
                                    assert(peer_cell.possible_values.has(w));
                                    assert(w == w0 && wmiss == w0);
                                    assert(cell.possible_values.has(w));
                                }
                            }
                        }
                    }
                }
                j = j + 1;
            }
            i = i + 1;
        }
        true
    }

    pub fn iter_cells(&self) -> (r: CellIterator)
        ensures
            r.state == self,
            r.index == 0,
    {
        CellIterator { state: self, index: 0 }
    }

    pub fn iter(&self) -> (r: GameCellIterator)
        ensures
            r.state == self,
            r.index == 0,
    {
        GameCellIterator { state: self, index: 0 }
    }

    pub fn iter_indexed(&self) -> (r: IndexedGameCellIterator)
        ensures
            r.state == self,
            r.index == 0,
    {
        IndexedGameCellIterator { state: self, index: 0 }
    }
}

/// An iterator producing the board's cells in index order.
pub struct CellIterator<'a> {
    pub state: &'a GameState,
    pub index: usize,
}

impl<'a> CellIterator<'a> {
    pub fn next(&mut self) -> (r: Option<GameCell>)
        requires
            old(self).state.wf(),
        ensures
            final(self).state == old(self).state,
            old(self).index < 81 ==> r == Some(old(self).state@[old(self).index as int]) && final(self).index == old(self).index + 1,
            old(self).index >= 81 ==> r is None && final(self).index == old(self).index,
    {
        if self.index >= 81 {
            return None;
        }
        let cell = self.state.cells[self.index];
        self.index = self.index + 1;
        Some(cell)
    }
}

/// An iterator producing [`GameCell`] copies.
pub struct GameCellIterator<'a> {
    pub state: &'a GameState,
    pub index: usize,
}

impl<'a> GameCellIterator<'a> {
    pub fn next(&mut self) -> (r: Option<GameCell>)
        requires
            old(self).state.wf(),
        ensures
            final(self).state == old(self).state,
            old(self).index < 81 ==> r == Some(old(self).state@[old(self).index as int]) && final(self).index == old(self).index + 1,
            old(self).index >= 81 ==> r is None && final(self).index == old(self).index,
    {
        if self.index >= 81 {
            return None;
        }
        let cell = self.state.cells[self.index];
        self.index = self.index + 1;
        Some(cell)
    }
}

/// An iterator producing [`IndexedGameCell`] copies.
pub struct IndexedGameCellIterator<'a> {
    pub state: &'a GameState,
    pub index: usize,
}

impl<'a> IndexedGameCellIterator<'a> {
    pub fn next(&mut self) -> (r: Option<IndexedGameCell>)
        requires
            old(self).state.wf(),
        ensures
            final(self).state == old(self).state,
            old(self).index < 81 ==> (r matches Some(c) && c.inner == old(self).state@[old(self).index as int] && c.index@ == old(self).index && final(self).index == old(self).index
                + 1),
            old(self).index >= 81 ==> r is None && final(self).index == old(self).index,
    {
        if self.index >= 81 {
            return None;
        }
        let cell = self.state.cells[self.index].into_indexed(Index::new(self.index as u8));
        self.index = self.index + 1;
        Some(cell)
    }
}

impl Clone for GameState {
    /// Clones the board; the copy holds the same candidates everywhere.
    fn clone(&self) -> (r: Self)
        ensures
            r@ == self@,
    {
        let mut cells: Vec<GameCell> = Vec::new();
        let mut i: usize = 0;
        while i < self.cells.len()
            invariant
                0 <= i <= self.cells@.len(),
                cells@ == self.cells@.take(i as int),
            decreases self.cells@.len() - i,
        {
            cells.push(self.cells[i]);
            proof {
                assert(cells@ =~= self.cells@.take(i + 1));
            }
            i = i + 1;
        }
        proof {
            assert(cells@ =~= self.cells@);
        }
        GameState { cells }
    }
}

impl PartialEq for GameState {
    /// Two boards are equal when every cell holds the same candidates.
    fn eq(&self, other: &GameState) -> (r: bool) {
        if self.cells.len() != other.cells.len() {
            return false;
        }
        let mut i: usize = 0;
        while i < self.cells.len()
            invariant
                0 <= i <= self.cells@.len(),
                self.cells@.len() == other.cells@.len(),
                forall|k: int| 0 <= k < i ==> self.cells@[k] == other.cells@[k],
            decreases self.cells@.len() - i,
        {
            if !(self.cells[i] == other.cells[i]) {
                return false;
            }
            i = i + 1;
        }
        proof {
            assert(self.cells@ =~= other.cells@);
        }
        true
    }
}

impl vstd::std_specs::cmp::PartialEqSpecImpl for GameState {
    open spec fn obeys_eq_spec() -> bool {
        true
    }

    open spec fn eq_spec(&self, other: &GameState) -> bool {
        self@ == other@
    }
}

impl Eq for GameState {}

} // verus!
