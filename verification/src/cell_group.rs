//! Region topology: named uniqueness groups and peer lookups.

use crate::coordinate::Coordinate;
use crate::index::{Index, IndexBitSet, IndexBitSetIter};
use vstd::prelude::*;

verus! {

/// The flavor of a uniqueness group.
#[derive(Debug, Copy, Clone, Eq, PartialEq, Structural)]
pub enum CellGroupType {
    Custom,
    StandardBlock,
    StandardRow,
    StandardColumn,
}

/// Controls which indexes to collect.
#[derive(Debug, Copy, Clone, Eq, PartialEq, Structural)]
pub enum CollectIndexes {
    /// Excludes the specified index during collection.
    ExcludeSelf,
    /// Includes the specified index during collection.
    IncludeSelf,
}

/// The error for a peer or group lookup that matched no group.
#[derive(Debug)]
pub struct NoMatchingGroup {}

/// A group of related indexes, e.g. a row, a column, ...
///
/// No two cells of a group may hold the same solved value.
#[derive(Debug, Copy, Clone, Eq, PartialEq)]
pub struct CellGroup {
    /// The internal ID of this group.
    pub id: Option<usize>,
    /// The type of the group.
    pub group_type: CellGroupType,
    /// The indexes for this group.
    pub indexes: IndexBitSet,
}

impl CellGroup {
    pub open spec fn wf(self) -> bool {
        self.indexes.wf()
    }

    /// Membership: does the group hold index `j`?
    pub open spec fn has(self, j: int) -> bool {
        self.indexes.has(j)
    }

    pub fn new(id: usize, group_type: CellGroupType) -> (r: Self)
        ensures
            r.wf(),
            r.id == Some(id),
            r.group_type == group_type,
            forall|j: int| !r.has(j),
    {
        Self { id: Some(id), group_type, indexes: IndexBitSet::empty() }
    }

    pub fn with_index(self, index: Index) -> (r: Self)
        requires
            self.wf(),
            index.wf(),
        ensures
            r.wf(),
            r.id == self.id,
            r.group_type == self.group_type,
            forall|j: int| #[trigger] r.has(j) <==> (self.has(j) || j == index@),
    {
        Self { id: self.id, group_type: self.group_type, indexes: self.indexes.with_index(index) }
    }

    pub fn with_indexes(self, indexes: &[Index]) -> (r: Self)
        requires
            self.wf(),
            forall|k: int| 0 <= k < indexes@.len() ==> (#[trigger] indexes@[k]).wf(),
        ensures
            r.wf(),
            r.id == self.id,
            r.group_type == self.group_type,
            forall|j: int|
                #[trigger] r.has(j) <==> (self.has(j) || (exists|k: int|
                    0 <= k < indexes@.len() && indexes@[k]@ == j)),
    {
        let mut r = self;
        let mut i: usize = 0;
        while i < indexes.len()
            invariant
                0 <= i <= indexes@.len(),
                r.wf(),
                r.id == self.id,
                r.group_type == self.group_type,
                forall|k: int| 0 <= k < indexes@.len() ==> (#[trigger] indexes@[k]).wf(),
                forall|j: int|
                    #[trigger] r.has(j) <==> (self.has(j) || (exists|k: int|
                        0 <= k < i && (#[trigger] indexes@[k])@ == j)),
            decreases indexes@.len() - i,
        {
            let v = indexes[i];
            r = r.with_index(v);
            proof {
                assert forall|j: int|
                    #[trigger] r.has(j) <==> (self.has(j) || (exists|k: int|
                        0 <= k < i + 1 && (#[trigger] indexes@[k])@ == j)) by {
                    if r.has(j) && !self.has(j) && j == v@ {
                        assert(indexes@[i as int]@ == j);
                    }
                }
            }
            i = i + 1;
        }
        r
    }

    pub fn with_type(self, cell_type: CellGroupType) -> (r: Self)
        ensures
            r.id == self.id,
            r.group_type == cell_type,
            r.indexes == self.indexes,
    {
        Self { id: self.id, group_type: cell_type, indexes: self.indexes }
    }

    pub fn add_index(&mut self, index: Index)
        requires
            old(self).wf(),
            index.wf(),
        ensures
            final(self).wf(),
            final(self).id == old(self).id,
            final(self).group_type == old(self).group_type,
            forall|j: int| #[trigger] final(self).has(j) <==> (old(self).has(j) || j == index@),
    {
        self.indexes.insert(index);
    }

    /// Determines whether this group contains a specific index.
    pub fn contains(&self, index: Index) -> (r: bool)
        requires
            self.wf(),
            index.wf(),
        ensures
            r == self.has(index@),
    {
        self.indexes.contains(index)
    }

    /// Gets the number of indexes for this group.
    pub fn len(&self) -> (r: usize)
        requires
            self.wf(),
        ensures
            r == self.indexes.card(),
    {
        self.indexes.len()
    }

    /// Determines whether this group has no indexes.
    pub fn empty(&self) -> (r: bool)
        requires
            self.wf(),
        ensures
            r <==> (forall|j: int| !self.has(j)),
    {
        let r = self.indexes.is_empty();
        proof {
            if r {
                assert forall|j: int| !self.has(j) by {
                    assert(!self.indexes.has(j));
                }
            } else {
                let j = choose|j: int| self.indexes.has(j);
                assert(self.has(j));
            }
        }
        r
    }

    /// Iterates all indexes for this cell group.
    pub fn iter_indexes(&self) -> (r: IndexBitSetIter)
        ensures
            r.value == self.indexes,
            r.index == 0,
    {
        self.indexes.iter()
    }

    /// Iterates all indexes for this cell group.
    pub fn into_iter_indexes(&self) -> (r: IndexBitSetIter)
        ensures
            r.value == self.indexes,
            r.index == 0,
    {
        self.indexes.iter()
    }

    /// Collects a custom group from a slice of indexes.
    pub fn from_iter(indexes: &[Index]) -> (r: Self)
        requires
            forall|k: int| 0 <= k < indexes@.len() ==> (#[trigger] indexes@[k]).wf(),
        ensures
            r.wf(),
            r.id is None,
            r.group_type == CellGroupType::Custom,
            forall|j: int|
                #[trigger] r.has(j) <==> (exists|k: int|
                    0 <= k < indexes@.len() && indexes@[k]@ == j),
    {
        Self::default().with_indexes(indexes)
    }

    /// Collects a custom group from a slice of raw index numbers.
    pub fn from_u8_slice(indexes: &[u8]) -> (r: Self)
        requires
            forall|k: int| 0 <= k < indexes@.len() ==> indexes@[k] < 81,
        ensures
            r.wf(),
            r.id is None,
            r.group_type == CellGroupType::Custom,
            forall|j: int|
                #[trigger] r.has(j) <==> (exists|k: int|
                    0 <= k < indexes@.len() && indexes@[k] == j),
    {
        let mut r = Self::default();
        let mut i: usize = 0;
        while i < indexes.len()
            invariant
                0 <= i <= indexes@.len(),
                r.wf(),
                r.id is None,
                r.group_type == CellGroupType::Custom,
                forall|k: int| 0 <= k < indexes@.len() ==> indexes@[k] < 81,
                forall|j: int|
                    #[trigger] r.has(j) <==> (exists|k: int|
                        0 <= k < i && (#[trigger] indexes@[k]) == j),
            decreases indexes@.len() - i,
        {
            let v = indexes[i];
            r.add_index(Index::new(v));
            proof {
                assert forall|j: int|
                    #[trigger] r.has(j) <==> (exists|k: int|
                        0 <= k < i + 1 && (#[trigger] indexes@[k]) == j) by {
                    if r.has(j) && j == v as int {
                        assert(indexes@[i as int] == j);
                    }
                }
            }
            i = i + 1;
        }
        r
    }
}

impl Default for CellGroup {
    fn default() -> (r: Self)
        ensures
            r.wf(),
            r.id is None,
            r.group_type == CellGroupType::Custom,
            forall|j: int| !r.has(j),
    {
        Self { id: None, group_type: CellGroupType::Custom, indexes: IndexBitSet::empty() }
    }
}

impl Default for CellGroupType {
    fn default() -> (r: Self)
        ensures
            r == CellGroupType::Custom,
    {
        CellGroupType::Custom
    }
}

proof fn lemma_push_contains<A>(s: Seq<A>, v: A, x: A)
    ensures
        s.push(v).contains(x) <==> (s.contains(x) || x == v),
{
    if s.contains(x) {
        let k = choose|k: int| 0 <= k < s.len() && s[k] == x;
        assert(s.push(v)[k] == x);
    }
    if x == v {
        assert(s.push(v)[s.len() as int] == x);
    }
    if s.push(v).contains(x) {
        let k = choose|k: int| 0 <= k < s.push(v).len() && s.push(v)[k] == x;
        if k < s.len() {
            assert(s[k] == x);
        }
    }
}

/// The set of all cell groups relevant to a game, with a secondary index
/// keyed by group type.
#[derive(Debug)]
pub struct CellGroups {
    pub groups: Vec<CellGroup>,
    pub tagged_custom: Vec<CellGroup>,
    pub tagged_block: Vec<CellGroup>,
    pub tagged_row: Vec<CellGroup>,
    pub tagged_column: Vec<CellGroup>,
}

impl CellGroups {
    /// The secondary index for one group type.
    pub open spec fn tagged(self, gt: CellGroupType) -> Seq<CellGroup> {
        match gt {
            CellGroupType::Custom => self.tagged_custom@,
            CellGroupType::StandardBlock => self.tagged_block@,
            CellGroupType::StandardRow => self.tagged_row@,
            CellGroupType::StandardColumn => self.tagged_column@,
        }
    }

    /// Every group is well formed and the secondary index holds exactly
    /// the groups of its type.
    pub open spec fn wf(self) -> bool {
        &&& forall|k: int| 0 <= k < self.groups@.len() ==> (#[trigger] self.groups@[k]).wf()
        &&& forall|gt: CellGroupType, g: CellGroup|
            #[trigger] self.tagged(gt).contains(g) <==> (self.groups@.contains(g) && g.group_type
                == gt)
    }

    /// Two cells are peers when some group holds both. A covered cell is
    /// its own peer.
    pub open spec fn is_peer(self, i: int, j: int) -> bool {
        exists|g: CellGroup| #[trigger] self.groups@.contains(g) && g.has(i) && g.has(j)
    }

    /// Two cells are typed peers when some group of the given type holds both.
    pub open spec fn is_typed_peer(self, gt: CellGroupType, i: int, j: int) -> bool {
        exists|g: CellGroup|
            #[trigger] self.groups@.contains(g) && g.group_type == gt && g.has(i) && g.has(j)
    }

    /// Some group holds the cell.
    pub open spec fn covered(self, i: int) -> bool {
        self.is_peer(i, i)
    }

    /// Some group holds the cell together with a second cell.
    pub open spec fn has_peer(self, i: int) -> bool {
        exists|j: int| j != i && self.is_peer(i, j)
    }

    /// Every cell of the grid has at least one true peer.
    pub open spec fn peered(self) -> bool {
        forall|i: int| 0 <= i < 81 ==> self.has_peer(i)
    }

    /// The largest id any group carries, or zero.
    pub open spec fn max_id_upto(self, k: int) -> int
        decreases k,
    {
        if k <= 0 {
            0
        } else {
            let prev = self.max_id_upto(k - 1);
            match self.groups@[k - 1].id {
                Some(id) => if id > prev {
                    id as int
                } else {
                    prev
                },
                None => prev,
            }
        }
    }

    fn get_highest_id(&self) -> (r: usize)
        requires
            self.wf(),
        ensures
            r == self.max_id_upto(self.groups@.len() as int),
    {
        let mut r: usize = 0;
        let mut k: usize = 0;
        while k < self.groups.len()
            invariant
                0 <= k <= self.groups@.len(),
                r == self.max_id_upto(k as int),
            decreases self.groups@.len() - k,
        {
            match self.groups[k].id {
                Some(id) => {
                    if id > r {
                        r = id;
                    }
                },
                None => {},
            }
            k = k + 1;
        }
        r
    }

    /// Registers a group, assigning the next free id when it has none.
    pub fn add_group(&mut self, group: CellGroup)
        requires
            old(self).wf(),
            group.wf(),
        ensures
            final(self).wf(),
            final(self).groups@.len() == old(self).groups@.len() + 1,
            forall|k: int|
                0 <= k < old(self).groups@.len() ==> final(self).groups@[k] == old(
                    self,
                ).groups@[k],
            ({
                let g = final(self).groups@[old(self).groups@.len() as int];
                g.group_type == group.group_type && g.indexes == group.indexes && (group.id is Some
                    ==> g.id == group.id)
            }),
    {
        let mut group = group;
        if group.id.is_none() {
            let ids = self.get_highest_id();
            let next = if ids < usize::MAX {
                ids + 1
            } else {
                ids
            };
            group.id = Some(next);
        }
        let ghost oldself = *self;
        self.groups.push(group);
        match group.group_type {
            CellGroupType::Custom => self.tagged_custom.push(group),
            CellGroupType::StandardBlock => self.tagged_block.push(group),
            CellGroupType::StandardRow => self.tagged_row.push(group),
            CellGroupType::StandardColumn => self.tagged_column.push(group),
        }
        proof {
            assert forall|gt: CellGroupType, g: CellGroup|
                #[trigger] self.tagged(gt).contains(g) <==> (self.groups@.contains(g)
                    && g.group_type == gt) by {
                lemma_push_contains(oldself.groups@, group, g);
                lemma_push_contains(oldself.tagged(gt), group, g);
                if self.tagged(gt) != oldself.tagged(gt) {
                    assert(self.tagged(gt) == oldself.tagged(gt).push(group));
                } else {
                    assert(gt != group.group_type);
                }
            }
            assert forall|k: int|
                0 <= k < self.groups@.len() implies (#[trigger] self.groups@[k]).wf() by {
                if k < oldself.groups@.len() {
                    assert(self.groups@[k] == oldself.groups@[k]);
                }
            }
        }
    }

    pub fn with_group(self, group: CellGroup) -> (r: Self)
        requires
            self.wf(),
            group.wf(),
        ensures
            r.wf(),
            r.groups@.len() == self.groups@.len() + 1,
            forall|k: int| 0 <= k < self.groups@.len() ==> r.groups@[k] == self.groups@[k],
            ({
                let g = r.groups@[self.groups@.len() as int];
                g.group_type == group.group_type && g.indexes == group.indexes && (group.id is Some
                    ==> g.id == group.id)
            }),
    {
        let mut r = self;
        r.add_group(group);
        r
    }

    /// Registers a custom group built from a slice of raw index numbers.
    pub fn with_group_from_iter(self, indexes: &[u8]) -> (r: Self)
        requires
            self.wf(),
            forall|k: int| 0 <= k < indexes@.len() ==> indexes@[k] < 81,
        ensures
            r.wf(),
            r.groups@.len() == self.groups@.len() + 1,
            forall|k: int| 0 <= k < self.groups@.len() ==> r.groups@[k] == self.groups@[k],
            ({
                let g = r.groups@[self.groups@.len() as int];
                g.group_type == CellGroupType::Custom && (forall|j: int|
                    #[trigger] g.has(j) <==> (exists|k: int|
                        0 <= k < indexes@.len() && indexes@[k] == j))
            }),
    {
        let cg = CellGroup::from_u8_slice(indexes);
        let ghost oldself = self;
        let r = self.with_group(cg);
        proof {
            let g = r.groups@[oldself.groups@.len() as int];
            assert forall|j: int|
                #[trigger] g.has(j) <==> (exists|k: int|
                    0 <= k < indexes@.len() && indexes@[k] == j) by {
                assert(g.has(j) <==> cg.has(j));
            }
        }
        r
    }

    /// Registers the nine standard rows, then the nine standard columns.
    pub fn with_default_rows_and_columns(self) -> (r: Self)
        requires
            self.wf(),
        ensures
            r.wf(),
            r.peered(),
            r.groups@.len() == self.groups@.len() + 18,
            forall|k: int| 0 <= k < self.groups@.len() ==> r.groups@[k] == self.groups@[k],
            forall|y: int|
                0 <= y < 9 ==> ({
                    let g = #[trigger] r.groups@[self.groups@.len() + y];
                    g.group_type == CellGroupType::StandardRow && (forall|j: int|
                        #[trigger] g.has(j) <==> (0 <= j < 81 && j / 9 == y))
                }),
            forall|x: int|
                0 <= x < 9 ==> ({
                    let g = #[trigger] r.groups@[self.groups@.len() + 9 + x];
                    g.group_type == CellGroupType::StandardColumn && (forall|j: int|
                        #[trigger] g.has(j) <==> (0 <= j < 81 && j % 9 == x))
                }),
    {
        let r = self.with_default_rows().with_default_columns();
        proof {
            let base = self.groups@.len() as int;
            assert forall|i: int| 0 <= i < 81 implies r.has_peer(i) by {
                let y = i / 9;
                let g = r.groups@[base + y];
                assert(r.groups@.contains(g)) by {
                    assert(r.groups@[base + y] == g);
                }
                let x = i % 9;
                let j = if x == 0 {
                    i + 1
                } else {
                    i - 1
                };
                assert(j / 9 == y && j != i && 0 <= j < 81);
                assert(g.has(i) && g.has(j));
                assert(r.is_peer(i, j));
            }
        }
        r
    }

    fn with_default_rows(self) -> (r: Self)
        requires
            self.wf(),
        ensures
            r.wf(),
            r.groups@.len() == self.groups@.len() + 9,
            forall|k: int| 0 <= k < self.groups@.len() ==> r.groups@[k] == self.groups@[k],
            forall|y: int|
                0 <= y < 9 ==> ({
                    let g = #[trigger] r.groups@[self.groups@.len() + y];
                    g.group_type == CellGroupType::StandardRow && (forall|j: int|
                        #[trigger] g.has(j) <==> (0 <= j < 81 && j / 9 == y))
                }),
    {
        let mut r = self;
        let mut ids = r.get_highest_id();
        let ghost base = self.groups@.len() as int;
        let mut y: u8 = 0;
        while y < 9
            invariant
                0 <= y <= 9,
                r.wf(),
                r.groups@.len() == base + y,
                base == self.groups@.len(),
                forall|k: int| 0 <= k < base ==> r.groups@[k] == self.groups@[k],
                forall|yy: int|
                    0 <= yy < y ==> ({
                        let g = #[trigger] r.groups@[base + yy];
                        g.group_type == CellGroupType::StandardRow && (forall|j: int|
                            #[trigger] g.has(j) <==> (0 <= j < 81 && j / 9 == yy))
                    }),
            decreases 9 - y,
        {
            let mut group = CellGroup::new(ids, CellGroupType::StandardRow);
            ids = if ids < usize::MAX {
                ids + 1
            } else {
                ids
            };
            let mut x: u8 = 0;
            while x < 9
                invariant
                    0 <= x <= 9,
                    y < 9,
                    group.wf(),
                    group.group_type == CellGroupType::StandardRow,
                    forall|j: int| #[trigger] group.has(j) <==> (0 <= j < 81 && j / 9 == y && j % 9 < x),
                decreases 9 - x,
            {
                let coord = Coordinate::new(x, y).into_index();
                group.add_index(coord);
                proof {
                    assert forall|j: int|
                        #[trigger] group.has(j) <==> (0 <= j < 81 && j / 9 == y && j % 9 < x
                            + 1) by {
                        if j == y * 9 + x {
                            assert(j / 9 == y && j % 9 == x) by (nonlinear_arith)
                                requires
                                    j == y * 9 + x,
                                    0 <= x < 9,
                                    0 <= y < 9,
                            ;
                        }
                        if 0 <= j < 81 && j / 9 == y && j % 9 == x {
                            assert(j == y * 9 + x) by (nonlinear_arith)
                                requires
                                    0 <= j,
                                    j / 9 == y,
                                    j % 9 == x,
                            ;
                        }
                    }
                }
                x = x + 1;
            }
            let ghost rbefore = r;
            r.add_group(group);
            proof {
                let g = r.groups@[base + y];
                assert(g.indexes == group.indexes);
                assert forall|j: int| #[trigger] g.has(j) <==> (0 <= j < 81 && j / 9 == y) by {
                    assert(g.has(j) <==> group.has(j));
                }
                assert forall|yy: int|
                    0 <= yy < y + 1 implies ({
                        let gg = #[trigger] r.groups@[base + yy];
                        gg.group_type == CellGroupType::StandardRow && (forall|j: int|
                            #[trigger] gg.has(j) <==> (0 <= j < 81 && j / 9 == yy))
                    }) by {
                    if yy < y {
                        assert(r.groups@[base + yy] == rbefore.groups@[base + yy]);
                    }
                }
            }
            y = y + 1;
        }
        r
    }

    fn with_default_columns(self) -> (r: Self)
        requires
            self.wf(),
        ensures
            r.wf(),
            r.groups@.len() == self.groups@.len() + 9,
            forall|k: int| 0 <= k < self.groups@.len() ==> r.groups@[k] == self.groups@[k],
            forall|x: int|
                0 <= x < 9 ==> ({
                    let g = #[trigger] r.groups@[self.groups@.len() + x];
                    g.group_type == CellGroupType::StandardColumn && (forall|j: int|
                        #[trigger] g.has(j) <==> (0 <= j < 81 && j % 9 == x))
                }),
    {
        let mut r = self;
        let mut ids = r.get_highest_id();
        let ghost base = self.groups@.len() as int;
        let mut x: u8 = 0;
        while x < 9
            invariant
                0 <= x <= 9,
                r.wf(),
                r.groups@.len() == base + x,
                base == self.groups@.len(),
                forall|k: int| 0 <= k < base ==> r.groups@[k] == self.groups@[k],
                forall|xx: int|
                    0 <= xx < x ==> ({
                        let g = #[trigger] r.groups@[base + xx];
                        g.group_type == CellGroupType::StandardColumn && (forall|j: int|
                            #[trigger] g.has(j) <==> (0 <= j < 81 && j % 9 == xx))
                    }),
            decreases 9 - x,
        {
            ids = if ids < usize::MAX {
                ids + 1
            } else {
                ids
            };
            let mut group = CellGroup::new(ids, CellGroupType::StandardColumn);
            let mut y: u8 = 0;
            while y < 9
                invariant
                    0 <= y <= 9,
                    x < 9,
                    group.wf(),
                    group.group_type == CellGroupType::StandardColumn,
                    forall|j: int| #[trigger] group.has(j) <==> (0 <= j < 81 && j % 9 == x && j / 9 < y),
                decreases 9 - y,
            {
                let coord = Coordinate::new(x, y).into_index();
                group.add_index(coord);
                proof {
                    assert forall|j: int|
                        #[trigger] group.has(j) <==> (0 <= j < 81 && j % 9 == x && j / 9 < y
                            + 1) by {
                        if j == y * 9 + x {
                            assert(j / 9 == y && j % 9 == x) by (nonlinear_arith)
                                requires
                                    j == y * 9 + x,
                                    0 <= x < 9,
                                    0 <= y < 9,
                            ;
                        }
                        if 0 <= j < 81 && j % 9 == x && j / 9 == y {
                            assert(j == y * 9 + x) by (nonlinear_arith)
                                requires
                                    0 <= j,
                                    j / 9 == y,
                                    j % 9 == x,
                            ;
                        }
                    }
                }
                y = y + 1;
            }
            let ghost rbefore = r;
            r.add_group(group);
            proof {
                let g = r.groups@[base + x];
                assert(g.indexes == group.indexes);
                assert forall|j: int| #[trigger] g.has(j) <==> (0 <= j < 81 && j % 9 == x) by {
                    assert(g.has(j) <==> group.has(j));
                }
                assert forall|xx: int|
                    0 <= xx < x + 1 implies ({
                        let gg = #[trigger] r.groups@[base + xx];
                        gg.group_type == CellGroupType::StandardColumn && (forall|j: int|
                            #[trigger] gg.has(j) <==> (0 <= j < 81 && j % 9 == xx))
                    }) by {
                    if xx < x {
                        assert(r.groups@[base + xx] == rbefore.groups@[base + xx]);
                    }
                }
            }
            x = x + 1;
        }
        r
    }

    /// Registers the nine standard 3x3 blocks.
    pub fn with_default_sudoku_blocks(self) -> (r: Self)
        requires
            self.wf(),
        ensures
            r.wf(),
            r.peered(),
            r.groups@.len() == self.groups@.len() + 9,
            forall|k: int| 0 <= k < self.groups@.len() ==> r.groups@[k] == self.groups@[k],
            forall|b: int|
                0 <= b < 9 ==> ({
                    let g = #[trigger] r.groups@[self.groups@.len() + b];
                    g.group_type == CellGroupType::StandardBlock && (forall|j: int|
                        #[trigger] g.has(j) <==> (0 <= j < 81 && j / 27 == b / 3 && (j % 9) / 3 == b
                            % 3))
                }),
    {
        let mut r = self;
        let mut ids = r.get_highest_id();
        let ghost base = self.groups@.len() as int;
        let mut b: u8 = 0;
        while b < 9
            invariant
                0 <= b <= 9,
                r.wf(),
                r.groups@.len() == base + b,
                base == self.groups@.len(),
                forall|k: int| 0 <= k < base ==> r.groups@[k] == self.groups@[k],
                forall|bb: int|
                    0 <= bb < b ==> ({
                        let g = #[trigger] r.groups@[base + bb];
                        g.group_type == CellGroupType::StandardBlock && (forall|j: int|
                            #[trigger] g.has(j) <==> (0 <= j < 81 && j / 27 == bb / 3 && (j % 9) / 3
                                == bb % 3))
                    }),
            decreases 9 - b,
        {
            let by = b / 3;
            let bx = b % 3;
            ids = if ids < usize::MAX {
                ids + 1
            } else {
                ids
            };
            let mut group = CellGroup::new(ids, CellGroupType::StandardBlock);
            let mut row: u8 = 0;
            while row < 3
                invariant
                    0 <= row <= 3,
                    b < 9,
                    by == b / 3,
                    bx == b % 3,
                    group.wf(),
                    group.group_type == CellGroupType::StandardBlock,
                    forall|j: int|
                        #[trigger] group.has(j) <==> (0 <= j < 81 && j / 27 == by && (j % 9) / 3
                            == bx && (j / 9) % 3 < row),
                decreases 3 - row,
            {
                let mut col: u8 = 0;
                while col < 3
                    invariant
                        0 <= col <= 3,
                        row < 3,
                        b < 9,
                        by == b / 3,
                        bx == b % 3,
                        group.wf(),
                        group.group_type == CellGroupType::StandardBlock,
                        forall|j: int|
                            #[trigger] group.has(j) <==> (0 <= j < 81 && j / 27 == by && (j % 9) / 3
                                == bx && ((j / 9) % 3 < row || ((j / 9) % 3 == row && (j % 9) % 3
                                < col))),
                    decreases 3 - col,
                {
                    let coord = Coordinate::new(bx * 3 + col, by * 3 + row).into_index();
                    group.add_index(coord);
                    proof {
                        let jj = (by * 3 + row) * 9 + (bx * 3 + col);
                        assert(jj / 27 == by && (jj % 9) / 3 == bx && (jj / 9) % 3 == row && (jj
                            % 9) % 3 == col && 0 <= jj < 81) by (nonlinear_arith)
                            requires
                                jj == (by * 3 + row) * 9 + (bx * 3 + col),
                                0 <= by < 3,
                                0 <= bx < 3,
                                0 <= row < 3,
                                0 <= col < 3,
                        ;
                        assert forall|j: int|
                            #[trigger] group.has(j) <==> (0 <= j < 81 && j / 27 == by && (j % 9) / 3
                                == bx && ((j / 9) % 3 < row || ((j / 9) % 3 == row && (j % 9) % 3
                                < col + 1))) by {
                            if 0 <= j < 81 && j / 27 == by && (j % 9) / 3 == bx && (j / 9) % 3
                                == row && (j % 9) % 3 == col {
                                assert(j == (by * 3 + row) * 9 + (bx * 3 + col)) by (
                                nonlinear_arith)
                                    requires
                                        0 <= j < 81,
                                        j / 27 == by,
                                        (j % 9) / 3 == bx,
                                        (j / 9) % 3 == row,
                                        (j % 9) % 3 == col,
                                        0 <= by < 3,
                                        0 <= bx < 3,
                                        0 <= row < 3,
                                        0 <= col < 3,
                                ;
                            }
                        }
                    }
                    col = col + 1;
                }
                row = row + 1;
            }
            let ghost rbefore = r;
            r.add_group(group);
            proof {
                let g = r.groups@[base + b];
                assert(g.indexes == group.indexes);
                assert forall|j: int|
                    #[trigger] g.has(j) <==> (0 <= j < 81 && j / 27 == b / 3 && (j % 9) / 3 == b
                        % 3) by {
                    assert(g.has(j) <==> group.has(j));
                    if 0 <= j < 81 && j / 27 == b / 3 && (j % 9) / 3 == b % 3 {
                        assert((j / 9) % 3 < 3);
                    }
                }
                assert forall|bb: int|
                    0 <= bb < b + 1 implies ({
                        let gg = #[trigger] r.groups@[base + bb];
                        gg.group_type == CellGroupType::StandardBlock && (forall|j: int|
                            #[trigger] gg.has(j) <==> (0 <= j < 81 && j / 27 == bb / 3 && (j % 9) / 3
                                == bb % 3))
                    }) by {
                    if bb < b {
                        assert(r.groups@[base + bb] == rbefore.groups@[base + bb]);
                    }
                }
            }
            b = b + 1;
        }
        proof {
            assert forall|i: int| 0 <= i < 81 implies r.has_peer(i) by {
                let bb = (i / 27) * 3 + (i % 9) / 3;
                assert(0 <= bb < 9);
                let g = #[trigger] r.groups@[base + bb];
                assert(r.groups@.contains(g)) by {
                    assert(r.groups@[base + bb] == g);
                }
                let j = if i % 3 == 0 {
                    i + 1
                } else {
                    i - 1
                };
                assert(0 <= j < 81 && j != i && j / 27 == i / 27 && (j % 9) / 3 == (i % 9) / 3) by (
                nonlinear_arith)
                    requires
                        0 <= i < 81,
                        j == if i % 3 == 0 {
                            i + 1
                        } else {
                            i - 1
                        },
                ;
                assert(g.has(i) && g.has(j));
                assert(r.is_peer(i, j));
            }
        }
        r
    }

    /// Registers the four overlapping Hypersudoku windows.
    pub fn with_hypersudoku_windows(self) -> (r: Self)
        requires
            self.wf(),
        ensures
            r.wf(),
            r.groups@.len() == self.groups@.len() + 4,
            forall|k: int| 0 <= k < self.groups@.len() ==> r.groups@[k] == self.groups@[k],
            ({
                let g = #[trigger] r.groups@[self.groups@.len() as int];
                g.group_type == CellGroupType::Custom && (forall|j: int|
                    #[trigger] g.has(j) <==> (j == 10 || j == 11 || j == 12 || j == 19 || j == 20
                        || j == 21 || j == 28 || j == 29 || j == 30))
            }),
            ({
                let g = #[trigger] r.groups@[self.groups@.len() as int + 1];
                g.group_type == CellGroupType::Custom && (forall|j: int|
                    #[trigger] g.has(j) <==> (j == 14 || j == 15 || j == 16 || j == 23 || j == 24
                        || j == 25 || j == 32 || j == 33 || j == 34))
            }),
            ({
                let g = #[trigger] r.groups@[self.groups@.len() as int + 2];
                g.group_type == CellGroupType::Custom && (forall|j: int|
                    #[trigger] g.has(j) <==> (j == 46 || j == 47 || j == 48 || j == 55 || j == 56
                        || j == 57 || j == 64 || j == 65 || j == 66))
            }),
            ({
                let g = #[trigger] r.groups@[self.groups@.len() as int + 3];
                g.group_type == CellGroupType::Custom && (forall|j: int|
                    #[trigger] g.has(j) <==> (j == 50 || j == 51 || j == 52 || j == 59 || j == 60
                        || j == 61 || j == 68 || j == 69 || j == 70))
            }),
    {
        let ghost base = self.groups@.len() as int;
        let w1: [u8; 9] = [10, 11, 12, 19, 20, 21, 28, 29, 30];
        let w2: [u8; 9] = [14, 15, 16, 23, 24, 25, 32, 33, 34];
        let w3: [u8; 9] = [46, 47, 48, 55, 56, 57, 64, 65, 66];
        let w4: [u8; 9] = [50, 51, 52, 59, 60, 61, 68, 69, 70];
        let r = self.with_group_from_iter(w1.as_slice()).with_group_from_iter(
            w2.as_slice(),
        ).with_group_from_iter(w3.as_slice()).with_group_from_iter(w4.as_slice());
        proof {
            let g1 = r.groups@[base];
            assert forall|j: int|
                #[trigger] g1.has(j) <==> (j == 10 || j == 11 || j == 12 || j == 19 || j == 20 || j
                    == 21 || j == 28 || j == 29 || j == 30) by {
                if g1.has(j) {
                    let k = choose|k: int| 0 <= k < w1@.len() && w1@[k] == j;
                }
                if j == 10 || j == 11 || j == 12 || j == 19 || j == 20 || j == 21 || j == 28 || j
                    == 29 || j == 30 {
                    assert(w1@[0] == 10 && w1@[1] == 11 && w1@[2] == 12 && w1@[3] == 19 && w1@[4]
                        == 20 && w1@[5] == 21 && w1@[6] == 28 && w1@[7] == 29 && w1@[8] == 30);
                }
            }
            let g2 = r.groups@[base + 1];
            assert forall|j: int|
                #[trigger] g2.has(j) <==> (j == 14 || j == 15 || j == 16 || j == 23 || j == 24 || j
                    == 25 || j == 32 || j == 33 || j == 34) by {
                if g2.has(j) {
                    let k = choose|k: int| 0 <= k < w2@.len() && w2@[k] == j;
                }
                if j == 14 || j == 15 || j == 16 || j == 23 || j == 24 || j == 25 || j == 32 || j
                    == 33 || j == 34 {
                    assert(w2@[0] == 14 && w2@[1] == 15 && w2@[2] == 16 && w2@[3] == 23 && w2@[4]
                        == 24 && w2@[5] == 25 && w2@[6] == 32 && w2@[7] == 33 && w2@[8] == 34);
                }
            }
            let g3 = r.groups@[base + 2];
            assert forall|j: int|
                #[trigger] g3.has(j) <==> (j == 46 || j == 47 || j == 48 || j == 55 || j == 56 || j
                    == 57 || j == 64 || j == 65 || j == 66) by {
                if g3.has(j) {
                    let k = choose|k: int| 0 <= k < w3@.len() && w3@[k] == j;
                }
                if j == 46 || j == 47 || j == 48 || j == 55 || j == 56 || j == 57 || j == 64 || j
                    == 65 || j == 66 {
                    assert(w3@[0] == 46 && w3@[1] == 47 && w3@[2] == 48 && w3@[3] == 55 && w3@[4]
                        == 56 && w3@[5] == 57 && w3@[6] == 64 && w3@[7] == 65 && w3@[8] == 66);
                }
            }
            let g4 = r.groups@[base + 3];
            assert forall|j: int|
                #[trigger] g4.has(j) <==> (j == 50 || j == 51 || j == 52 || j == 59 || j == 60 || j
                    == 61 || j == 68 || j == 69 || j == 70) by {
                if g4.has(j) {
                    let k = choose|k: int| 0 <= k < w4@.len() && w4@[k] == j;
                }
                if j == 50 || j == 51 || j == 52 || j == 59 || j == 60 || j == 61 || j == 68 || j
                    == 69 || j == 70 {
                    assert(w4@[0] == 50 && w4@[1] == 51 && w4@[2] == 52 && w4@[3] == 59 && w4@[4]
                        == 60 && w4@[5] == 61 && w4@[6] == 68 && w4@[7] == 69 && w4@[8] == 70);
                }
            }
        }
        r
    }

    pub fn get_at_xy(&self, x: u8, y: u8, mode: CollectIndexes) -> (r: Result<
        IndexBitSet,
        NoMatchingGroup,
    >)
        requires
            self.wf(),
            x < 9,
            y < 9,
        ensures
            r matches Ok(s) ==> s.wf() && (forall|j: int|
                #[trigger] s.has(j) <==> (self.is_peer(y * 9 + x, j) && (mode
                    == CollectIndexes::ExcludeSelf ==> j != y * 9 + x))),
            r is Ok <==> (exists|j: int|
                #[trigger] self.is_peer(y * 9 + x, j) && (mode == CollectIndexes::ExcludeSelf ==> j != y * 9
                    + x)),
    {
        self.get_at_coord(Coordinate::new(x, y), mode)
    }

    pub fn get_at_coord(&self, coord: Coordinate, mode: CollectIndexes) -> (r: Result<
        IndexBitSet,
        NoMatchingGroup,
    >)
        requires
            self.wf(),
            coord.wf(),
        ensures
            r matches Ok(s) ==> s.wf() && (forall|j: int|
                #[trigger] s.has(j) <==> (self.is_peer(coord.y * 9 + coord.x, j) && (mode
                    == CollectIndexes::ExcludeSelf ==> j != coord.y * 9 + coord.x))),
            r is Ok <==> (exists|j: int|
                #[trigger] self.is_peer(coord.y * 9 + coord.x, j) && (mode == CollectIndexes::ExcludeSelf
                    ==> j != coord.y * 9 + coord.x)),
    {
        self.get_peers_at_index(coord.into_index(), mode)
    }

    /// The union of all groups holding the index, with the index itself
    /// removed under `ExcludeSelf`. An empty result is a lookup error.
    pub fn get_peers_at_index(&self, index: Index, mode: CollectIndexes) -> (r: Result<
        IndexBitSet,
        NoMatchingGroup,
    >)
        requires
            self.wf(),
            index.wf(),
        ensures
            r matches Ok(s) ==> s.wf() && (forall|j: int|
                #[trigger] s.has(j) <==> (self.is_peer(index@, j) && (mode
                    == CollectIndexes::ExcludeSelf ==> j != index@))),
            r is Ok <==> (exists|j: int|
                #[trigger] self.is_peer(index@, j) && (mode == CollectIndexes::ExcludeSelf ==> j != index@)),
    {
        let mut set = IndexBitSet::empty();
        let mut k: usize = 0;
        while k < self.groups.len()
            invariant
                0 <= k <= self.groups@.len(),
                self.wf(),
                index.wf(),
                set.wf(),
                forall|j: int|
                    #[trigger] set.has(j) <==> (exists|kk: int|
                        0 <= kk < k && (#[trigger] self.groups@[kk]).has(index@)
                            && self.groups@[kk].has(j)),
            decreases self.groups@.len() - k,
        {
            let g = &self.groups[k];
            if g.contains(index) {
                set.union(&g.indexes);
                proof {
                    assert forall|j: int|
                        #[trigger] set.has(j) <==> (exists|kk: int|
                            0 <= kk < k + 1 && (#[trigger] self.groups@[kk]).has(index@)
                                && self.groups@[kk].has(j)) by {
                        if set.has(j) {
                            if self.groups@[k as int].indexes.has(j) {
                                assert(self.groups@[k as int].has(index@) && self.groups@[k
                                    as int].has(j));
                            }
                        }
                        if exists|kk: int|
                            0 <= kk < k + 1 && (#[trigger] self.groups@[kk]).has(index@)
                                && self.groups@[kk].has(j) {
                            let kk = choose|kk: int|
                                0 <= kk < k + 1 && (#[trigger] self.groups@[kk]).has(index@)
                                    && self.groups@[kk].has(j);
                            if kk == k {
                                assert(self.groups@[k as int].indexes.has(j));
                            }
                        }
                    }
                }
            } else {
                proof {
                    assert forall|j: int|
                        #[trigger] set.has(j) <==> (exists|kk: int|
                            0 <= kk < k + 1 && (#[trigger] self.groups@[kk]).has(index@)
                                && self.groups@[kk].has(j)) by {
                        if exists|kk: int|
                            0 <= kk < k + 1 && (#[trigger] self.groups@[kk]).has(index@)
                                && self.groups@[kk].has(j) {
                            let kk = choose|kk: int|
                                0 <= kk < k + 1 && (#[trigger] self.groups@[kk]).has(index@)
                                    && self.groups@[kk].has(j);
                            assert(kk < k);
                        }
                    }
                }
            }
            k = k + 1;
        }
        match mode {
            CollectIndexes::IncludeSelf => {},
            CollectIndexes::ExcludeSelf => {
                set.remove(index);
            },
        }
        proof {
            assert forall|j: int|
                #[trigger] set.has(j) <==> (self.is_peer(index@, j) && (mode
                    == CollectIndexes::ExcludeSelf ==> j != index@)) by {
                if set.has(j) {
                    let kk = choose|kk: int|
                        0 <= kk < self.groups@.len() && (#[trigger] self.groups@[kk]).has(index@)
                            && self.groups@[kk].has(j);
                    let g = self.groups@[kk];
                    assert(self.groups@.contains(g)) by {
                        assert(self.groups@[kk] == g);
                    }
                    assert(self.is_peer(index@, j));
                }
                if self.is_peer(index@, j) && (mode == CollectIndexes::ExcludeSelf ==> j
                    != index@) {
                    let g = choose|g: CellGroup|
                        #[trigger] self.groups@.contains(g) && g.has(index@) && g.has(j);
                    let kk = choose|kk: int|
                        0 <= kk < self.groups@.len() && self.groups@[kk] == g;
                    assert((#[trigger] self.groups@[kk]).has(index@) && self.groups@[kk].has(j));
                }
            }
        }
        let empty = set.is_empty();
        proof {
            if !empty {
                let j = choose|j: int| set.has(j);
                assert(self.is_peer(index@, j) && (mode == CollectIndexes::ExcludeSelf ==> j
                    != index@));
            } else {
                if exists|j: int|
                    #[trigger] self.is_peer(index@, j) && (mode == CollectIndexes::ExcludeSelf
                        ==> j != index@) {
                    let j = choose|j: int|
                        #[trigger] self.is_peer(index@, j) && (mode == CollectIndexes::ExcludeSelf
                            ==> j != index@);
                    assert(set.has(j));
                    assert(false);
                }
            }
        }
        if empty {
            Err(NoMatchingGroup {})
        } else {
            Ok(set)
        }
    }

    pub fn get_groups_at_xy(&self, x: u8, y: u8) -> (r: Result<Vec<CellGroup>, NoMatchingGroup>)
        requires
            self.wf(),
            x < 9,
            y < 9,
        ensures
            r matches Ok(v) ==> (forall|k: int|
                0 <= k < v@.len() ==> (#[trigger] v@[k]).wf() && v@[k].has(y * 9 + x)
                    && self.groups@.contains(v@[k])) && v@.len() > 0,
            r is Ok <==> self.covered(y * 9 + x),
    {
        self.get_groups_at_coord(Coordinate::new(x, y))
    }

    pub fn get_groups_at_coord(&self, coord: Coordinate) -> (r: Result<
        Vec<CellGroup>,
        NoMatchingGroup,
    >)
        requires
            self.wf(),
            coord.wf(),
        ensures
            r matches Ok(v) ==> (forall|k: int|
                0 <= k < v@.len() ==> (#[trigger] v@[k]).wf() && v@[k].has(coord.y * 9 + coord.x)
                    && self.groups@.contains(v@[k])) && v@.len() > 0,
            r is Ok <==> self.covered(coord.y * 9 + coord.x),
    {
        self.get_groups_at_index(coord.into_index())
    }

    /// All groups holding the index; an empty result is a lookup error.
    pub fn get_groups_at_index(&self, index: Index) -> (r: Result<Vec<CellGroup>, NoMatchingGroup>)
        requires
            self.wf(),
            index.wf(),
        ensures
            r matches Ok(v) ==> (forall|k: int|
                0 <= k < v@.len() ==> (#[trigger] v@[k]).wf() && v@[k].has(index@)
                    && self.groups@.contains(v@[k])) && v@.len() > 0,
            r matches Ok(v) ==> (forall|k: int|
                0 <= k < self.groups@.len() && (#[trigger] self.groups@[k]).has(index@)
                    ==> v@.contains(self.groups@[k])),
            r is Ok <==> self.covered(index@),
    {
        let mut set: Vec<CellGroup> = Vec::new();
        let mut k: usize = 0;
        while k < self.groups.len()
            invariant
                0 <= k <= self.groups@.len(),
                self.wf(),
                index.wf(),
                forall|m: int|
                    0 <= m < set@.len() ==> (#[trigger] set@[m]).wf() && set@[m].has(index@)
                        && self.groups@.contains(set@[m]),
                forall|kk: int|
                    0 <= kk < k && (#[trigger] self.groups@[kk]).has(index@) ==> set@.contains(
                        self.groups@[kk],
                    ),
                set@.len() > 0 <==> (exists|kk: int|
                    0 <= kk < k && (#[trigger] self.groups@[kk]).has(index@)),
            decreases self.groups@.len() - k,
        {
            let g = &self.groups[k];
            if g.contains(index) {
                let ghost setbefore = set@;
                set.push(*g);
                proof {
                    assert(self.groups@.contains(self.groups@[k as int])) by {
                        assert(self.groups@[k as int] == self.groups@[k as int]);
                    }
                    assert forall|m: int|
                        0 <= m < set@.len() implies (#[trigger] set@[m]).wf() && set@[m].has(index@)
                        && self.groups@.contains(set@[m]) by {
                        if m < setbefore.len() {
                            assert(set@[m] == setbefore[m]);
                        }
                    }
                    assert((#[trigger] self.groups@[k as int]).has(index@));
                    assert forall|kk: int|
                        0 <= kk < k + 1 && (#[trigger] self.groups@[kk]).has(index@) implies
                        set@.contains(self.groups@[kk]) by {
                        if kk == k {
                            assert(set@[setbefore.len() as int] == self.groups@[k as int]);
                        } else {
                            lemma_push_contains(setbefore, self.groups@[k as int], self.groups@[kk]);
                        }
                    }
                }
            } else {
                proof {
                    if exists|kk: int| 0 <= kk < k + 1 && (#[trigger] self.groups@[kk]).has(index@) {
                        let kk = choose|kk: int|
                            0 <= kk < k + 1 && (#[trigger] self.groups@[kk]).has(index@);
                        if kk == k {
                            assert(false);
                        }
                    }
                }
            }
            k = k + 1;
        }
        proof {
            if set@.len() > 0 {
                let kk = choose|kk: int|
                    0 <= kk < self.groups@.len() && (#[trigger] self.groups@[kk]).has(index@);
                let g = self.groups@[kk];
                assert(self.groups@.contains(g)) by {
                    assert(self.groups@[kk] == g);
                }
                assert(self.covered(index@));
            }
            if self.covered(index@) {
                let g = choose|g: CellGroup|
                    #[trigger] self.groups@.contains(g) && g.has(index@) && g.has(index@);
                let kk = choose|kk: int| 0 <= kk < self.groups@.len() && self.groups@[kk] == g;
                assert((#[trigger] self.groups@[kk]).has(index@));
            }
        }
        if set.is_empty() {
            Err(NoMatchingGroup {})
        } else {
            Ok(set)
        }
    }

    /// The union of the groups of one type holding the index.
    pub fn get_peer_indexes(&self, index: Index, group_type: CellGroupType) -> (r: IndexBitSet)
        requires
            self.wf(),
            index.wf(),
        ensures
            r.wf(),
            forall|j: int| #[trigger] r.has(j) <==> self.is_typed_peer(group_type, index@, j),
    {
        let tagged: &Vec<CellGroup> = match group_type {
            CellGroupType::Custom => &self.tagged_custom,
            CellGroupType::StandardBlock => &self.tagged_block,
            CellGroupType::StandardRow => &self.tagged_row,
            CellGroupType::StandardColumn => &self.tagged_column,
        };
        proof {
            assert(tagged@ == self.tagged(group_type));
            assert forall|m: int| 0 <= m < tagged@.len() implies (#[trigger] tagged@[m]).wf() by {
                let g = tagged@[m];
                assert(self.tagged(group_type).contains(g)) by {
                    assert(self.tagged(group_type)[m] == g);
                }
                assert(self.groups@.contains(g));
                let k = choose|k: int| 0 <= k < self.groups@.len() && self.groups@[k] == g;
                assert((#[trigger] self.groups@[k]).wf());
            }
        }
        let mut set = IndexBitSet::empty();
        let mut k: usize = 0;
        while k < tagged.len()
            invariant
                0 <= k <= tagged@.len(),
                self.wf(),
                index.wf(),
                set.wf(),
                tagged@ == self.tagged(group_type),
                forall|m: int| 0 <= m < tagged@.len() ==> (#[trigger] tagged@[m]).wf(),
                forall|j: int|
                    #[trigger] set.has(j) <==> (exists|kk: int|
                        0 <= kk < k && (#[trigger] tagged@[kk]).group_type == group_type
                            && tagged@[kk].has(index@) && tagged@[kk].has(j)),
            decreases tagged@.len() - k,
        {
            let g = &tagged[k];
            proof {
                assert(self.tagged(group_type).contains(tagged@[k as int])) by {
                    assert(self.tagged(group_type)[k as int] == tagged@[k as int]);
                }
            }
            if matches_type(g.group_type, group_type) && g.contains(index) {
                set.union(&g.indexes);
                proof {
                    assert forall|j: int|
                        #[trigger] set.has(j) <==> (exists|kk: int|
                            0 <= kk < k + 1 && (#[trigger] tagged@[kk]).group_type == group_type
                                && tagged@[kk].has(index@) && tagged@[kk].has(j)) by {
                        if set.has(j) {
                            if tagged@[k as int].indexes.has(j) {
                                assert((#[trigger] tagged@[k as int]).group_type == group_type
                                    && tagged@[k as int].has(index@) && tagged@[k as int].has(j));
                            }
                        }
                        if exists|kk: int|
                            0 <= kk < k + 1 && (#[trigger] tagged@[kk]).group_type == group_type
                                && tagged@[kk].has(index@) && tagged@[kk].has(j) {
                            let kk = choose|kk: int|
                                0 <= kk < k + 1 && (#[trigger] tagged@[kk]).group_type == group_type
                                    && tagged@[kk].has(index@) && tagged@[kk].has(j);
                            if kk == k {
                                assert(tagged@[k as int].indexes.has(j));
                            }
                        }
                    }
                }
            } else {
                proof {
                    assert forall|j: int|
                        #[trigger] set.has(j) <==> (exists|kk: int|
                            0 <= kk < k + 1 && (#[trigger] tagged@[kk]).group_type == group_type
                                && tagged@[kk].has(index@) && tagged@[kk].has(j)) by {
                        if exists|kk: int|
                            0 <= kk < k + 1 && (#[trigger] tagged@[kk]).group_type == group_type
                                && tagged@[kk].has(index@) && tagged@[kk].has(j) {
                            let kk = choose|kk: int|
                                0 <= kk < k + 1 && (#[trigger] tagged@[kk]).group_type == group_type
                                    && tagged@[kk].has(index@) && tagged@[kk].has(j);
                            assert(kk < k);
                        }
                    }
                }
            }
            k = k + 1;
        }
        proof {
            assert forall|j: int|
                #[trigger] set.has(j) <==> self.is_typed_peer(group_type, index@, j) by {
                if set.has(j) {
                    let kk = choose|kk: int|
                        0 <= kk < tagged@.len() && (#[trigger] tagged@[kk]).group_type == group_type
                            && tagged@[kk].has(index@) && tagged@[kk].has(j);
                    let g = tagged@[kk];
                    assert(self.tagged(group_type).contains(g)) by {
                        assert(self.tagged(group_type)[kk] == g);
                    }
                    assert(self.groups@.contains(g));
                    assert(self.is_typed_peer(group_type, index@, j));
                }
                if self.is_typed_peer(group_type, index@, j) {
                    let g = choose|g: CellGroup|
                        #[trigger] self.groups@.contains(g) && g.group_type == group_type && g.has(
                            index@,
                        ) && g.has(j);
                    assert(self.tagged(group_type).contains(g));
                    let kk = choose|kk: int| 0 <= kk < tagged@.len() && tagged@[kk] == g;
                    assert((#[trigger] tagged@[kk]).group_type == group_type && tagged@[kk].has(
                        index@,
                    ) && tagged@[kk].has(j));
                }
            }
        }
        set
    }

    /// A fully peered topology covers every cell.
    pub proof fn lemma_peered_covered(self)
        requires
            self.peered(),
        ensures
            forall|i: int| 0 <= i < 81 ==> self.covered(i),
    {
        assert forall|i: int| 0 <= i < 81 implies self.covered(i) by {
            assert(self.has_peer(i));
            let j = choose|j: int| j != i && self.is_peer(i, j);
            let g = choose|g: CellGroup| #[trigger] self.groups@.contains(g) && g.has(i) && g.has(j);
            assert(self.groups@.contains(g) && g.has(i) && g.has(i));
        }
    }

    /// A read-only view of all registered groups.
    pub fn iter(&self) -> (r: &Vec<CellGroup>)
        ensures
            r@ == self.groups@,
    {
        &self.groups
    }
}

/// Compares two group type tags.
fn matches_type(a: CellGroupType, b: CellGroupType) -> (r: bool)
    ensures
        r <==> a == b,
{
    match (a, b) {
        (CellGroupType::Custom, CellGroupType::Custom) => true,
        (CellGroupType::StandardBlock, CellGroupType::StandardBlock) => true,
        (CellGroupType::StandardRow, CellGroupType::StandardRow) => true,
        (CellGroupType::StandardColumn, CellGroupType::StandardColumn) => true,
        _ => false,
    }
}

fn clone_group_vec(v: &Vec<CellGroup>) -> (r: Vec<CellGroup>)
    ensures
        r@ == v@,
{
    let mut r: Vec<CellGroup> = Vec::new();
    let mut i: usize = 0;
    while i < v.len()
        invariant
            0 <= i <= v@.len(),
            r@ == v@.take(i as int),
        decreases v@.len() - i,
    {
        r.push(v[i]);
        proof {
            assert(r@ =~= v@.take(i + 1));
        }
        i = i + 1;
    }
    proof {
        assert(r@ =~= v@);
    }
    r
}

impl Clone for CellGroups {
    /// Clones the topology; the copy describes the same regions.
    fn clone(&self) -> (r: Self)
        ensures
            r.groups@ == self.groups@,
            r.tagged_custom@ == self.tagged_custom@,
            r.tagged_block@ == self.tagged_block@,
            r.tagged_row@ == self.tagged_row@,
            r.tagged_column@ == self.tagged_column@,
    {
        Self {
            groups: clone_group_vec(&self.groups),
            tagged_custom: clone_group_vec(&self.tagged_custom),
            tagged_block: clone_group_vec(&self.tagged_block),
            tagged_row: clone_group_vec(&self.tagged_row),
            tagged_column: clone_group_vec(&self.tagged_column),
        }
    }
}

impl Default for CellGroups {
    /// An empty topology.
    fn default() -> (r: Self)
        ensures
            r.wf(),
            r.groups@.len() == 0,
    {
        let r = Self {
            groups: Vec::new(),
            tagged_custom: Vec::new(),
            tagged_block: Vec::new(),
            tagged_row: Vec::new(),
            tagged_column: Vec::new(),
        };
        proof {
            assert forall|gt: CellGroupType, g: CellGroup|
                #[trigger] r.tagged(gt).contains(g) <==> (r.groups@.contains(g) && g.group_type
                    == gt) by {
                assert(!r.tagged(gt).contains(g));
                assert(!r.groups@.contains(g));
            }
        }
        r
    }
}

} // verus!
