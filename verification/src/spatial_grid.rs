use crate::aabb::cell_of;
use crate::aabb::Cell;
use crate::aabb::Point3;
use crate::aabb::AABB;
use std::collections::HashMap;
use std::collections::HashSet;
use vstd::prelude::*;

verus! {

/// The key under which the members of `cell` are stored: its three coordinates,
/// each moved into the non-negative range, as the digits of one number.
pub open spec fn cell_key(cell: Cell) -> u128 {
    (((cell.x + 0x8000_0000) * 0x1_0000_0000 + (cell.y + 0x8000_0000)) * 0x1_0000_0000 + (cell.z
        + 0x8000_0000)) as u128
}

/// Different cells have different keys.
pub proof fn lemma_cell_key_injective(a: Cell, b: Cell)
    ensures
        cell_key(a) == cell_key(b) <==> a == b,
{
}

fn pack(cell: Cell) -> (key: u128)
    ensures
        key == cell_key(cell),
{
    let x: u128 = (cell.x as i64 + 0x8000_0000) as u128;
    let y: u128 = (cell.y as i64 + 0x8000_0000) as u128;
    let z: u128 = (cell.z as i64 + 0x8000_0000) as u128;
    (x * 0x1_0000_0000 + y) * 0x1_0000_0000 + z
}

/// The bodies listed under `cell` in a table of cells.
pub open spec fn listed(cells: Map<u128, Vec<usize>>, cell: Cell) -> Seq<usize> {
    if cells.contains_key(cell_key(cell)) {
        cells[cell_key(cell)]@
    } else {
        Seq::empty()
    }
}

/// Whether no list of the table names a body twice.
pub open spec fn lists_distinct(cells: Map<u128, Vec<usize>>) -> bool {
    forall|cell: Cell| (#[trigger] listed(cells, cell)).no_duplicates()
}

/// Where `id` stands in the list, if it is in it.
pub(crate) fn position_of(list: &Vec<usize>, id: usize) -> (at: Option<usize>)
    ensures
        match at {
            Some(i) => i < list@.len() && list@[i as int] == id,
            None => !list@.contains(id),
        },
{
    let mut i: usize = 0;
    while i < list.len()
        invariant
            i <= list@.len(),
            forall|k: int| 0 <= k < i ==> list@[k] != id,
        decreases list@.len() - i,
    {
        if list[i] == id {
            return Some(i);
        }
        i += 1;
    }
    None
}

/// Lists `id` under `cell`, behind the bodies listed there, unless it is listed already.
fn list_add(cells: &mut HashMap<u128, Vec<usize>>, cell: Cell, id: usize)
    requires
        lists_distinct(old(cells)@),
    ensures
        lists_distinct(final(cells)@),
        forall|c: Cell| c != cell ==> #[trigger] listed(final(cells)@, c) == listed(old(cells)@, c),
        listed(old(cells)@, cell).contains(id) ==> listed(final(cells)@, cell) == listed(
            old(cells)@,
            cell,
        ),
        !listed(old(cells)@, cell).contains(id) ==> listed(final(cells)@, cell) == listed(
            old(cells)@,
            cell,
        ).push(id),
{
    broadcast use vstd::std_specs::hash::group_hash_axioms;

    let key: u128 = pack(cell);
    let ghost before = listed(cells@, cell);
    assert(before.no_duplicates());
    let mut list: Vec<usize> = match cells.remove(&key) {
        Some(list) => list,
        None => Vec::new(),
    };
    assert(list@ == before);
    if position_of(&list, id).is_none() {
        list.push(id);
    }
    cells.insert(key, list);
    proof {
        assert forall|c: Cell| c != cell implies #[trigger] listed(cells@, c) == listed(
            old(cells)@,
            c,
        ) by {
            lemma_cell_key_injective(c, cell);
        }
        assert forall|c: Cell| (#[trigger] listed(cells@, c)).no_duplicates() by {
            if c != cell {
                assert(listed(old(cells)@, c).no_duplicates());
            }
        }
    }
}

/// Strikes `id` from the list of `cell`; the other bodies keep their order.
fn list_remove(cells: &mut HashMap<u128, Vec<usize>>, cell: Cell, id: usize)
    requires
        lists_distinct(old(cells)@),
    ensures
        lists_distinct(final(cells)@),
        forall|c: Cell| c != cell ==> #[trigger] listed(final(cells)@, c) == listed(old(cells)@, c),
        !listed(final(cells)@, cell).contains(id),
        forall|other: usize|
            other != id ==> listed(final(cells)@, cell).contains(other) == listed(
                old(cells)@,
                cell,
            ).contains(other),
{
    broadcast use vstd::std_specs::hash::group_hash_axioms;

    let key: u128 = pack(cell);
    let ghost before = listed(cells@, cell);
    assert(before.no_duplicates());
    match cells.remove(&key) {
        Some(list) => {
            let mut list = list;
            match position_of(&list, id) {
                Some(at) => {
                    list.remove(at);
                    proof {
                        assert(list@ == before.remove(at as int));
                        assert forall|other: usize| other != id implies list@.contains(other)
                            == before.contains(other) by {
                            if before.contains(other) {
                                let k = choose|k: int| 0 <= k < before.len() && before[k] == other;
                                if k < at {
                                    assert(list@[k] == other);
                                } else {
                                    assert(list@[k - 1] == other);
                                }
                            }
                            if list@.contains(other) {
                                let k = choose|k: int| 0 <= k < list@.len() && list@[k] == other;
                                if k < at {
                                    assert(before[k] == other);
                                } else {
                                    assert(before[k + 1] == other);
                                }
                            }
                        }
                        assert(!list@.contains(id)) by {
                            if list@.contains(id) {
                                let k = choose|k: int| 0 <= k < list@.len() && list@[k] == id;
                                if k < at {
                                    assert(before[k] == id);
                                } else {
                                    assert(before[k + 1] == id);
                                }
                            }
                        }
                        assert(list@.no_duplicates()) by {
                            assert forall|i: int, j: int|
                                0 <= i < list@.len() && 0 <= j < list@.len() && i != j implies list@[i]
                                != list@[j] by {
                                let bi = if i < at { i } else { i + 1 };
                                let bj = if j < at { j } else { j + 1 };
                                assert(before[bi] == list@[i]);
                                assert(before[bj] == list@[j]);
                            }
                        }
                    }
                },
                None => {},
            }
            if list.len() > 0 {
                cells.insert(key, list);
            }
        },
        None => {},
    }
    proof {
        assert forall|c: Cell| c != cell implies #[trigger] listed(cells@, c) == listed(
            old(cells)@,
            c,
        ) by {
            lemma_cell_key_injective(c, cell);
        }
        assert forall|c: Cell| (#[trigger] listed(cells@, c)).no_duplicates() by {
            if c != cell {
                assert(listed(old(cells)@, c).no_duplicates());
            }
        }
    }
}

/// Whether `cell` lies in the block of cells from `lo` to `hi`, both included.
pub open spec fn in_block(cell: Cell, lo: Cell, hi: Cell) -> bool {
    &&& lo.x <= cell.x <= hi.x
    &&& lo.y <= cell.y <= hi.y
    &&& lo.z <= cell.z <= hi.z
}

/// The order in which a block of cells is walked: by `x`, then `y`, then `z`.
pub open spec fn walked_before(a: Cell, b: Cell) -> bool {
    a.x < b.x || (a.x == b.x && (a.y < b.y || (a.y == b.y && a.z < b.z)))
}

/// The first cell of the walk through the block, if the block has a cell.
fn first_cell(lo: Cell, hi: Cell) -> (first: Option<Cell>)
    ensures
        match first {
            Some(cell) => cell == lo && in_block(cell, lo, hi),
            None => forall|c: Cell| !in_block(c, lo, hi),
        },
{
    if lo.x <= hi.x && lo.y <= hi.y && lo.z <= hi.z {
        Some(lo)
    } else {
        None
    }
}

/// The cell that follows `cur` in the walk through the block, if any is left.
fn next_cell(cur: Cell, lo: Cell, hi: Cell) -> (next: Option<Cell>)
    requires
        in_block(cur, lo, hi),
    ensures
        match next {
            Some(cell) => {
                &&& in_block(cell, lo, hi)
                &&& walked_before(cur, cell)
                &&& forall|c: Cell|
                    in_block(c, lo, hi) ==> (walked_before(c, cell) <==> walked_before(c, cur) || c
                        == cur)
                &&& (cell.x == cur.x && cell.y == cur.y && cell.z > cur.z) || (cell.x == cur.x
                    && cell.y > cur.y) || cell.x > cur.x
            },
            None => forall|c: Cell| in_block(c, lo, hi) ==> walked_before(c, cur) || c == cur,
        },
{
    if cur.z < hi.z {
        Some(Cell { x: cur.x, y: cur.y, z: cur.z + 1 })
    } else if cur.y < hi.y {
        Some(Cell { x: cur.x, y: cur.y + 1, z: lo.z })
    } else if cur.x < hi.x {
        Some(Cell { x: cur.x + 1, y: lo.y, z: lo.z })
    } else {
        None
    }
}

/// Lists `id` under every cell of the block.
fn list_add_block(cells: &mut HashMap<u128, Vec<usize>>, lo: Cell, hi: Cell, id: usize)
    requires
        lists_distinct(old(cells)@),
    ensures
        lists_distinct(final(cells)@),
        forall|c: Cell, j: usize|
            #![trigger listed(final(cells)@, c).contains(j)]
            listed(final(cells)@, c).contains(j) <==> listed(old(cells)@, c).contains(j) || (j == id
                && in_block(c, lo, hi)),
{
    let mut cur: Option<Cell> = first_cell(lo, hi);
    while cur.is_some()
        invariant
            lists_distinct(cells@),
            cur matches Some(at) ==> in_block(at, lo, hi),
            forall|c: Cell, j: usize|
                #![trigger listed(cells@, c).contains(j)]
                listed(cells@, c).contains(j) <==> listed(old(cells)@, c).contains(j) || (j == id
                    && in_block(c, lo, hi) && (cur matches Some(at) ==> walked_before(c, at))),
        decreases
                (if cur is Some { 1int } else { 0int }),
                (match cur { Some(at) => hi.x - at.x, None => 0 }),
                (match cur { Some(at) => hi.y - at.y, None => 0 }),
                (match cur { Some(at) => hi.z - at.z, None => 0 }),
    {
        let at: Cell = cur.unwrap();
        let ghost prior = cells@;
        list_add(cells, at, id);
        cur = next_cell(at, lo, hi);
        proof {
            assert forall|c: Cell, j: usize|
                #![trigger listed(cells@, c).contains(j)]
                listed(cells@, c).contains(j) <==> listed(old(cells)@, c).contains(j) || (j == id
                    && in_block(c, lo, hi) && (cur matches Some(n) ==> walked_before(c, n))) by {
                assert(listed(prior, c).contains(j) <==> listed(old(cells)@, c).contains(j) || (j
                    == id && in_block(c, lo, hi) && walked_before(c, at)));
                if c == at {
                    if !listed(prior, c).contains(id) {
                        vstd::seq_lib::lemma_seq_contains_after_push(listed(prior, c), id, j);
                    }
                }
            }
        }
    }
}

/// Strikes `id` from the list of every cell of the block.
fn list_remove_block(cells: &mut HashMap<u128, Vec<usize>>, lo: Cell, hi: Cell, id: usize)
    requires
        lists_distinct(old(cells)@),
    ensures
        lists_distinct(final(cells)@),
        forall|c: Cell, j: usize|
            #![trigger listed(final(cells)@, c).contains(j)]
            listed(final(cells)@, c).contains(j) <==> listed(old(cells)@, c).contains(j) && !(j
                == id && in_block(c, lo, hi)),
{
    let mut cur: Option<Cell> = first_cell(lo, hi);
    while cur.is_some()
        invariant
            lists_distinct(cells@),
            cur matches Some(at) ==> in_block(at, lo, hi),
            forall|c: Cell, j: usize|
                #![trigger listed(cells@, c).contains(j)]
                listed(cells@, c).contains(j) <==> listed(old(cells)@, c).contains(j) && !(j == id
                    && in_block(c, lo, hi) && (cur matches Some(at) ==> walked_before(c, at))),
        decreases
                (if cur is Some { 1int } else { 0int }),
                (match cur { Some(at) => hi.x - at.x, None => 0 }),
                (match cur { Some(at) => hi.y - at.y, None => 0 }),
                (match cur { Some(at) => hi.z - at.z, None => 0 }),
    {
        let at: Cell = cur.unwrap();
        let ghost prior = cells@;
        list_remove(cells, at, id);
        cur = next_cell(at, lo, hi);
        proof {
            assert forall|c: Cell, j: usize|
                #![trigger listed(cells@, c).contains(j)]
                listed(cells@, c).contains(j) <==> listed(old(cells)@, c).contains(j) && !(j == id
                    && in_block(c, lo, hi) && (cur matches Some(n) ==> walked_before(c, n))) by {
                assert(listed(prior, c).contains(j) <==> listed(old(cells)@, c).contains(j) && !(j
                    == id && in_block(c, lo, hi) && walked_before(c, at)));
            }
        }
    }
}

/// A box that was set is the box that is got: in a grid that differs from
/// another by one `set_node`, the body has exactly the box that was given, and
/// every other body the box it had.
pub proof fn lemma_get_after_set(before: &SpatialGrid, after: &SpatialGrid, id: usize, aabb: AABB)
    requires
        after.rects() == before.rects().insert(id, aabb),
    ensures
        after.rects().contains_key(id),
        after.rects()[id] == aabb,
        forall|other: usize|
            other != id ==> after.rects().contains_key(other) == before.rects().contains_key(other)
                && (before.rects().contains_key(other) ==> after.rects()[other]
                == before.rects()[other]),
{
}

/// Appends to `out` the bodies of `list` that it does not hold yet.
fn gather(list: &Vec<usize>, out: &mut Vec<usize>)
    requires
        old(out)@.no_duplicates(),
    ensures
        final(out)@.no_duplicates(),
        forall|j: usize|
            #![trigger final(out)@.contains(j)]
            final(out)@.contains(j) <==> old(out)@.contains(j) || list@.contains(j),
{
    let mut k: usize = 0;
    while k < list.len()
        invariant
            k <= list@.len(),
            out@.no_duplicates(),
            forall|j: usize|
                out@.contains(j) <==> old(out)@.contains(j) || exists|m: int|
                    0 <= m < k && list@[m] == j,
        decreases list@.len() - k,
    {
        let id: usize = list[k];
        let ghost before = out@;
        if position_of(out, id).is_none() {
            out.push(id);
            proof {
                assert forall|j: usize| out@.contains(j) <==> before.contains(j) || j == id by {
                    vstd::seq_lib::lemma_seq_contains_after_push(before, id, j);
                }
                assert(out@.no_duplicates()) by {
                    assert forall|a: int, b: int|
                        0 <= a < out@.len() && 0 <= b < out@.len() && a != b implies out@[a]
                        != out@[b] by {
                        if a < before.len() {
                            assert(before.contains(out@[a]));
                        }
                        if b < before.len() {
                            assert(before.contains(out@[b]));
                        }
                    }
                }
            }
        }
        k += 1;
        proof {
            assert forall|j: usize|
                out@.contains(j) <==> old(out)@.contains(j) || exists|m: int|
                    0 <= m < k && list@[m] == j by {
                if before.contains(j) && !old(out)@.contains(j) {
                    let m = choose|m: int| 0 <= m < k - 1 && list@[m] == j;
                    assert(0 <= m < k && list@[m] == j);
                }
                if j == id {
                    assert(list@[k - 1] == j);
                }
                if exists|m: int| 0 <= m < k && list@[m] == j {
                    let m = choose|m: int| 0 <= m < k && list@[m] == j;
                    if m < k - 1 {
                        assert(exists|m: int| 0 <= m < k - 1 && list@[m] == j);
                    }
                }
            }
        }
    }
    proof {
        assert forall|j: usize| out@.contains(j) <==> old(out)@.contains(j) || list@.contains(
            j,
        ) by {
            if list@.contains(j) {
                let m = choose|m: int| 0 <= m < list@.len() && list@[m] == j;
                assert(0 <= m < k && list@[m] == j);
            }
        }
    }
}

/// The least box that holds both end points of a segment.
pub open spec fn span_of(start: Point3, end: Point3) -> AABB {
    AABB {
        min: Point3 {
            x: if start.x <= end.x { start.x } else { end.x },
            y: if start.y <= end.y { start.y } else { end.y },
            z: if start.z <= end.z { start.z } else { end.z },
        },
        max: Point3 {
            x: if start.x <= end.x { end.x } else { start.x },
            y: if start.y <= end.y { end.y } else { start.y },
            z: if start.z <= end.z { end.z } else { start.z },
        },
    }
}

fn span(start: Point3, end: Point3) -> (aabb: AABB)
    ensures
        aabb == span_of(start, end),
        aabb.is_valid(),
{
    AABB {
        min: Point3 {
            x: if start.x <= end.x { start.x } else { end.x },
            y: if start.y <= end.y { start.y } else { end.y },
            z: if start.z <= end.z { start.z } else { end.z },
        },
        max: Point3 {
            x: if start.x <= end.x { end.x } else { start.x },
            y: if start.y <= end.y { end.y } else { start.y },
            z: if start.z <= end.z { end.z } else { start.z },
        },
    }
}

/// Whether the list has an entry for `cell`.
pub open spec fn has_cell(list: Seq<(Cell, Vec<usize>)>, cell: Cell) -> bool {
    exists|k: int| 0 <= k < list.len() && (#[trigger] list[k]).0 == cell
}

/// The block of cells that `aabb` reaches into.
fn block_of(aabb: &AABB, size: i64) -> (block: (Cell, Cell))
    requires
        size >= 1,
    ensures
        forall|c: Cell| in_block(c, block.0, block.1) <==> aabb.covers(c, size as int),
{
    let lo = Cell {
        x: cell_of(aabb.min.x, size),
        y: cell_of(aabb.min.y, size),
        z: cell_of(aabb.min.z, size),
    };
    let hi = Cell {
        x: cell_of(aabb.max.x, size),
        y: cell_of(aabb.max.y, size),
        z: cell_of(aabb.max.z, size),
    };
    (lo, hi)
}

/// A uniform grid of cubic cells that lists, for every cell, the bodies whose
/// boxes reach into it, and keeps for every body the box it was last given.
pub struct SpatialGrid {
    cell_size: i64,
    cells: HashMap<u128, Vec<usize>>,
    rects: HashMap<usize, AABB>,
    ids: Vec<usize>,
}

impl SpatialGrid {
    /// The width of a cell.
    pub closed spec fn size(&self) -> int {
        self.cell_size as int
    }

    /// The box last given for each body that the grid tracks.
    pub closed spec fn rects(&self) -> Map<usize, AABB> {
        self.rects@
    }

    /// The bodies listed under `cell`.
    pub closed spec fn members(&self, cell: Cell) -> Seq<usize> {
        listed(self.cells@, cell)
    }

    /// The bodies that the grid tracks, in the order in which the grid came to track them.
    pub closed spec fn bodies(&self) -> Seq<usize> {
        self.ids@
    }

    /// What holds of every grid: a body is listed under a cell exactly when the
    /// grid tracks it and its box reaches into the cell, no list names a body
    /// twice, and every box lies within the limit of the collision arithmetic.
    pub open spec fn wf(&self) -> bool {
        &&& self.size() >= 1
        &&& forall|id: usize| #[trigger]
            self.rects().contains_key(id) ==> self.rects()[id].in_range()
        &&& self.bodies().no_duplicates()
        &&& forall|id: usize|
            #![trigger self.bodies().contains(id)]
            #![trigger self.rects().contains_key(id)]
            self.bodies().contains(id) <==> self.rects().contains_key(id)
        &&& forall|c: Cell| (#[trigger] self.members(c)).no_duplicates()
        &&& forall|c: Cell, id: usize|
            #![trigger self.members(c).contains(id)]
            self.members(c).contains(id) <==> self.rects().contains_key(id)
                && self.rects()[id].covers(c, self.size())
    }

    /// An empty grid with cells of width `cell_size`.
    pub fn new(cell_size: i64) -> (grid: Self)
        requires
            cell_size >= 1,
        ensures
            grid.wf(),
            grid.size() == cell_size,
            grid.rects() == Map::<usize, AABB>::empty(),
            grid.bodies() == Seq::<usize>::empty(),
    {
        broadcast use vstd::std_specs::hash::group_hash_axioms;

        let grid = SpatialGrid {
            cell_size,
            cells: HashMap::new(),
            rects: HashMap::new(),
            ids: Vec::new(),
        };
        assert(grid.rects() =~= Map::<usize, AABB>::empty());
        assert forall|c: Cell| (#[trigger] grid.members(c)) == Seq::<usize>::empty() by {}
        grid
    }

    /// The box last given for `id`, if the grid tracks it.
    pub fn get_node_rect(&self, id: usize) -> (rect: Option<AABB>)
        ensures
            rect == (if self.rects().contains_key(id) {
                Some(self.rects()[id])
            } else {
                None
            }),
    {
        broadcast use vstd::std_specs::hash::group_hash_axioms;

        match self.rects.get(&id) {
            Some(aabb) => Some(*aabb),
            None => None,
        }
    }

    /// Starts tracking `id` with the box `aabb`, or gives a body that it tracks a new
    /// box: afterwards it is listed under the cells of the new box and no others.
    pub fn set_node(&mut self, id: usize, aabb: AABB)
        requires
            old(self).wf(),
            aabb.in_range(),
        ensures
            final(self).wf(),
            final(self).size() == old(self).size(),
            final(self).rects() == old(self).rects().insert(id, aabb),
            final(self).bodies() == (if old(self).rects().contains_key(id) {
                old(self).bodies()
            } else {
                old(self).bodies().push(id)
            }),
    {
        broadcast use vstd::std_specs::hash::group_hash_axioms;

        proof {
            old(self).lemma_lists();
        }
        match self.rects.get(&id) {
            Some(previous) => {
                let (lo, hi) = block_of(previous, self.cell_size);
                list_remove_block(&mut self.cells, lo, hi, id);
            },
            None => {
                self.ids.push(id);
                proof {
                    let before = old(self).bodies();
                    assert(!before.contains(id));
                    assert forall|j: usize| self.ids@.contains(j) <==> before.contains(j) || j
                        == id by {
                        vstd::seq_lib::lemma_seq_contains_after_push(before, id, j);
                    }
                    assert(self.ids@.no_duplicates()) by {
                        assert forall|i: int, j: int|
                            0 <= i < self.ids@.len() && 0 <= j < self.ids@.len() && i
                                != j implies self.ids@[i] != self.ids@[j] by {
                            if i < before.len() {
                                assert(before.contains(self.ids@[i]));
                            }
                            if j < before.len() {
                                assert(before.contains(self.ids@[j]));
                            }
                        }
                    }
                }
            },
        }
        let ghost struck = self.cells@;
        proof {
            assert forall|c: Cell, j: usize|
                #![trigger listed(struck, c).contains(j)]
                listed(struck, c).contains(j) <==> j != id && old(self).rects().contains_key(j)
                    && old(self).rects()[j].covers(c, self.size()) by {
                assert(old(self).members(c).contains(j) <==> old(self).rects().contains_key(j)
                    && old(self).rects()[j].covers(c, self.size()));
            }
        }
        let (lo, hi) = block_of(&aabb, self.cell_size);
        list_add_block(&mut self.cells, lo, hi, id);
        self.rects.insert(id, aabb);
        proof {
            assert(self.rects() =~= old(self).rects().insert(id, aabb));
            assert forall|j: usize| self.bodies().contains(j) <==> self.rects().contains_key(
                j,
            ) by {
                assert(old(self).bodies().contains(j) <==> old(self).rects().contains_key(j));
                if !old(self).rects().contains_key(id) {
                    vstd::seq_lib::lemma_seq_contains_after_push(old(self).bodies(), id, j);
                }
            }
            assert forall|c: Cell, j: usize|
                #![trigger self.members(c).contains(j)]
                self.members(c).contains(j) <==> self.rects().contains_key(j)
                    && self.rects()[j].covers(c, self.size()) by {
                assert(listed(self.cells@, c).contains(j) <==> listed(struck, c).contains(j) || (j
                    == id && in_block(c, lo, hi)));
            }
            assert forall|c: Cell| (#[trigger] self.members(c)).no_duplicates() by {
                assert(listed(self.cells@, c).no_duplicates());
            }
        }
    }

    /// Stops tracking `id`: it is struck from every cell and its box is forgotten.
    /// Nothing changes where the grid does not track it.
    pub fn rem_node(&mut self, id: usize)
        requires
            old(self).wf(),
        ensures
            final(self).wf(),
            final(self).size() == old(self).size(),
            final(self).rects() == old(self).rects().remove(id),
            !old(self).rects().contains_key(id) ==> final(self).bodies() == old(self).bodies(),
            old(self).rects().contains_key(id) ==> exists|at: int|
                0 <= at < old(self).bodies().len() && old(self).bodies()[at] == id
                    && final(self).bodies() == old(self).bodies().remove(at),
    {
        broadcast use vstd::std_specs::hash::group_hash_axioms;

        proof {
            old(self).lemma_lists();
        }
        match self.rects.get(&id) {
            Some(previous) => {
                let (lo, hi) = block_of(previous, self.cell_size);
                list_remove_block(&mut self.cells, lo, hi, id);
                self.rects.remove(&id);
                let ghost before = self.ids@;
                match position_of(&self.ids, id) {
                    Some(at) => {
                        self.ids.remove(at);
                        proof {
                            assert(self.ids@ == before.remove(at as int));
                            assert forall|j: usize| self.ids@.contains(j) <==> before.contains(j)
                                && j != id by {
                                if before.contains(j) && j != id {
                                    let k = choose|k: int| 0 <= k < before.len() && before[k] == j;
                                    if k < at {
                                        assert(self.ids@[k] == j);
                                    } else {
                                        assert(self.ids@[k - 1] == j);
                                    }
                                }
                                if self.ids@.contains(j) {
                                    let k = choose|k: int|
                                        0 <= k < self.ids@.len() && self.ids@[k] == j;
                                    if k < at {
                                        assert(before[k] == j);
                                    } else {
                                        assert(before[k + 1] == j);
                                    }
                                }
                            }
                            assert(self.ids@.no_duplicates()) by {
                                assert forall|i: int, j: int|
                                    0 <= i < self.ids@.len() && 0 <= j < self.ids@.len() && i
                                        != j implies self.ids@[i] != self.ids@[j] by {
                                    let bi = if i < at { i } else { i + 1 };
                                    let bj = if j < at { j } else { j + 1 };
                                    assert(before[bi] == self.ids@[i]);
                                    assert(before[bj] == self.ids@[j]);
                                }
                            }
                        }
                    },
                    None => {
                        assert(before.contains(id));
                    },
                }
                proof {
                    assert(self.rects() =~= old(self).rects().remove(id));
                    assert forall|j: usize| self.bodies().contains(j) <==> self.rects().contains_key(
                        j,
                    ) by {
                        assert(old(self).bodies().contains(j) <==> old(self).rects().contains_key(
                            j,
                        ));
                    }
                    assert forall|c: Cell, j: usize|
                        #![trigger self.members(c).contains(j)]
                        self.members(c).contains(j) <==> self.rects().contains_key(j)
                            && self.rects()[j].covers(c, self.size()) by {
                        assert(listed(self.cells@, c).contains(j) <==> listed(
                            old(self).cells@,
                            c,
                        ).contains(j) && !(j == id && in_block(c, lo, hi)));
                        assert(old(self).members(c).contains(j) <==> old(self).rects().contains_key(
                            j,
                        ) && old(self).rects()[j].covers(c, self.size()));
                    }
                    assert forall|c: Cell| (#[trigger] self.members(c)).no_duplicates() by {
                        assert(listed(self.cells@, c).no_duplicates());
                    }
                }
            },
            None => {
                proof {
                    assert(self.rects() =~= old(self).rects().remove(id));
                }
            },
        }
    }

    /// Stops tracking every body for which `keep` answers no. The bodies that
    /// stay keep their boxes and their order.
    pub fn retain_nodes<F: Fn(usize) -> bool>(&mut self, keep: &F)
        requires
            old(self).wf(),
            forall|id: usize| keep.requires((id,)),
        ensures
            final(self).wf(),
            final(self).size() == old(self).size(),
            forall|id: usize| #[trigger]
                final(self).rects().contains_key(id) ==> old(self).rects().contains_key(id)
                    && final(self).rects()[id] == old(self).rects()[id] && keep.ensures(
                    (id,),
                    true,
                ),
            forall|id: usize|
                old(self).rects().contains_key(id) && !(#[trigger] final(self).rects().contains_key(
                    id,
                )) ==> keep.ensures((id,), false),
    {
        let mut i: usize = 0;
        while i < self.ids.len()
            invariant
                self.wf(),
                self.size() == old(self).size(),
                i <= self.ids@.len(),
                forall|id: usize| #[trigger]
                    self.rects().contains_key(id) ==> old(self).rects().contains_key(id)
                        && self.rects()[id] == old(self).rects()[id],
                forall|id: usize|
                    old(self).rects().contains_key(id) && !(#[trigger] self.rects().contains_key(
                        id,
                    )) ==> keep.ensures((id,), false),
                forall|k: int| 0 <= k < i ==> keep.ensures((#[trigger] self.ids@[k],), true),
                forall|id: usize| keep.requires((id,)),
            decreases self.ids@.len() - i,
        {
            let id: usize = self.ids[i];
            let ghost before = self.ids@;
            assert(self.bodies().contains(id));
            if keep(id) {
                i += 1;
            } else {
                self.rem_node(id);
                proof {
                    let at = choose|at: int|
                        0 <= at < before.len() && before[at] == id && self.ids@ == before.remove(at);
                    assert(at == i);
                }
            }
        }
        proof {
            assert forall|id: usize| #[trigger] self.rects().contains_key(id) implies keep.ensures(
                (id,),
                true,
            ) by {
                assert(self.bodies().contains(id));
                let k = choose|k: int| 0 <= k < self.ids@.len() && self.ids@[k] == id;
                assert(keep.ensures((self.ids@[k],), true));
            }
        }
    }

    /// The bodies listed under the cells of a block, each once.
    fn members_in_block(&self, lo: Cell, hi: Cell) -> (out: Vec<usize>)
        ensures
            out@.no_duplicates(),
            forall|j: usize|
                out@.contains(j) <==> exists|c: Cell|
                    in_block(c, lo, hi) && #[trigger] listed(self.cells@, c).contains(j),
    {
        broadcast use vstd::std_specs::hash::group_hash_axioms;

        let mut out: Vec<usize> = Vec::new();
        let mut cur: Option<Cell> = first_cell(lo, hi);
        while cur.is_some()
            invariant
                out@.no_duplicates(),
                cur matches Some(at) ==> in_block(at, lo, hi),
                forall|j: usize|
                    out@.contains(j) <==> exists|c: Cell|
                        in_block(c, lo, hi) && (cur matches Some(at) ==> walked_before(c, at))
                            && #[trigger] listed(self.cells@, c).contains(j),
            decreases
                    (if cur is Some { 1int } else { 0int }),
                    (match cur { Some(at) => hi.x - at.x, None => 0 }),
                    (match cur { Some(at) => hi.y - at.y, None => 0 }),
                    (match cur { Some(at) => hi.z - at.z, None => 0 }),
        {
            let at: Cell = cur.unwrap();
            let ghost before = out@;
            let key: u128 = pack(at);
            match self.cells.get(&key) {
                Some(list) => {
                    gather(list, &mut out);
                    assert(list@ == listed(self.cells@, at));
                    assert forall|j: usize|
                        out@.contains(j) <==> before.contains(j) || listed(
                            self.cells@,
                            at,
                        ).contains(j) by {
                        assert(out@.contains(j) <==> before.contains(j) || list@.contains(j));
                    }
                },
                None => {
                    assert(listed(self.cells@, at) == Seq::<usize>::empty());
                    assert forall|j: usize|
                        out@.contains(j) <==> before.contains(j) || listed(
                            self.cells@,
                            at,
                        ).contains(j) by {
                        assert(!Seq::<usize>::empty().contains(j));
                    }
                },
            }
            cur = next_cell(at, lo, hi);
            proof {
                assert forall|j: usize|
                    out@.contains(j) <==> exists|c: Cell|
                        in_block(c, lo, hi) && (cur matches Some(n) ==> walked_before(c, n))
                            && #[trigger] listed(self.cells@, c).contains(j) by {
                    if out@.contains(j) {
                        if before.contains(j) {
                            let c = choose|c: Cell|
                                in_block(c, lo, hi) && walked_before(c, at) && #[trigger] listed(
                                    self.cells@,
                                    c,
                                ).contains(j);
                            assert(in_block(c, lo, hi) && (cur matches Some(n) ==> walked_before(
                                c,
                                n,
                            )) && listed(self.cells@, c).contains(j));
                        } else {
                            assert(in_block(at, lo, hi) && (cur matches Some(n) ==> walked_before(
                                at,
                                n,
                            )) && listed(self.cells@, at).contains(j));
                        }
                    }
                    if exists|c: Cell|
                        in_block(c, lo, hi) && (cur matches Some(n) ==> walked_before(c, n))
                            && #[trigger] listed(self.cells@, c).contains(j) {
                        let c = choose|c: Cell|
                            in_block(c, lo, hi) && (cur matches Some(n) ==> walked_before(c, n))
                                && #[trigger] listed(self.cells@, c).contains(j);
                        if c != at {
                            assert(walked_before(c, at));
                        }
                    }
                }
            }
        }
        out
    }

    /// Adds to `out` the cells of the block that it does not hold yet, each with
    /// the bodies listed under it.
    fn add_cells(
        &self,
        lo: Cell,
        hi: Cell,
        seen: &mut HashSet<u128>,
        out: &mut Vec<(Cell, Vec<usize>)>,
    )
        requires
            forall|key: u128|
                old(seen)@.contains(key) <==> exists|k: int|
                    0 <= k < old(out)@.len() && cell_key((#[trigger] old(out)@[k]).0) == key,
            forall|i: int, j: int|
                0 <= i < j < old(out)@.len() ==> old(out)@[i].0 != old(out)@[j].0,
            forall|k: int|
                0 <= k < old(out)@.len() ==> (#[trigger] old(out)@[k]).1@ == listed(
                    self.cells@,
                    old(out)@[k].0,
                ),
        ensures
            forall|key: u128|
                final(seen)@.contains(key) <==> exists|k: int|
                    0 <= k < final(out)@.len() && cell_key((#[trigger] final(out)@[k]).0) == key,
            forall|i: int, j: int|
                0 <= i < j < final(out)@.len() ==> final(out)@[i].0 != final(out)@[j].0,
            forall|k: int|
                0 <= k < final(out)@.len() ==> (#[trigger] final(out)@[k]).1@ == listed(
                    self.cells@,
                    final(out)@[k].0,
                ),
            old(out)@.len() <= final(out)@.len(),
            forall|k: int| 0 <= k < old(out)@.len() ==> final(out)@[k] == old(out)@[k],
            forall|k: int|
                old(out)@.len() <= k < final(out)@.len() ==> in_block(
                    (#[trigger] final(out)@[k]).0,
                    lo,
                    hi,
                ),
            forall|c: Cell| in_block(c, lo, hi) ==> has_cell(final(out)@, c),
    {
        broadcast use vstd::std_specs::hash::group_hash_axioms;

        let mut cur: Option<Cell> = first_cell(lo, hi);
        while cur.is_some()
            invariant
                cur matches Some(at) ==> in_block(at, lo, hi),
                forall|key: u128|
                    seen@.contains(key) <==> exists|k: int|
                        0 <= k < out@.len() && cell_key((#[trigger] out@[k]).0) == key,
                forall|i: int, j: int| 0 <= i < j < out@.len() ==> out@[i].0 != out@[j].0,
                forall|k: int|
                    0 <= k < out@.len() ==> (#[trigger] out@[k]).1@ == listed(
                        self.cells@,
                        out@[k].0,
                    ),
                old(out)@.len() <= out@.len(),
                forall|k: int| 0 <= k < old(out)@.len() ==> out@[k] == old(out)@[k],
                forall|k: int|
                    old(out)@.len() <= k < out@.len() ==> in_block((#[trigger] out@[k]).0, lo, hi),
                forall|c: Cell|
                    in_block(c, lo, hi) && (cur matches Some(at) ==> walked_before(c, at))
                        ==> has_cell(out@, c),
            decreases
                    (if cur is Some { 1int } else { 0int }),
                    (match cur { Some(at) => hi.x - at.x, None => 0 }),
                    (match cur { Some(at) => hi.y - at.y, None => 0 }),
                    (match cur { Some(at) => hi.z - at.z, None => 0 }),
        {
            let at: Cell = cur.unwrap();
            let key: u128 = pack(at);
            let ghost before = out@;
            let ghost keys = seen@;
            if !seen.contains(&key) {
                seen.insert(key);
                let members = self.cell(at);
                out.push((at, members));
                proof {
                    assert(out@[before.len() as int].0 == at);
                    assert forall|i: int, j: int| 0 <= i < j < out@.len() implies out@[i].0
                        != out@[j].0 by {
                        if j == before.len() {
                            if out@[i].0 == at {
                                assert(cell_key(before[i].0) == key);
                            }
                        }
                    }
                    assert forall|probe: u128|
                        seen@.contains(probe) <==> exists|k: int|
                            0 <= k < out@.len() && cell_key((#[trigger] out@[k]).0) == probe by {
                        if probe == key {
                            assert(cell_key(out@[before.len() as int].0) == probe);
                        } else {
                            if keys.contains(probe) {
                                let k = choose|k: int|
                                    0 <= k < before.len() && cell_key((#[trigger] before[k]).0)
                                        == probe;
                                assert(cell_key(out@[k].0) == probe);
                            }
                            if exists|k: int|
                                0 <= k < out@.len() && cell_key((#[trigger] out@[k]).0) == probe {
                                let k = choose|k: int|
                                    0 <= k < out@.len() && cell_key((#[trigger] out@[k]).0)
                                        == probe;
                                assert(k < before.len());
                                assert(cell_key(before[k].0) == probe);
                            }
                        }
                    }
                }
            }
            proof {
                assert(has_cell(out@, at)) by {
                    if keys.contains(key) {
                        let k = choose|k: int|
                            0 <= k < before.len() && cell_key((#[trigger] before[k]).0) == key;
                        lemma_cell_key_injective(before[k].0, at);
                        assert(out@[k].0 == at);
                    } else {
                        assert(out@[before.len() as int].0 == at);
                    }
                }
            }
            cur = next_cell(at, lo, hi);
            proof {
                assert forall|c: Cell|
                    in_block(c, lo, hi) && (cur matches Some(n) ==> walked_before(
                        c,
                        n,
                    )) implies has_cell(out@, c) by {
                    if c != at {
                        assert(walked_before(c, at));
                        assert(has_cell(before, c));
                        let k = choose|k: int| 0 <= k < before.len() && (#[trigger] before[k]).0 == c;
                        assert(out@[k].0 == c);
                    }
                }
            }
        }
    }

    /// Every cell under which a body is listed, once, with the bodies listed
    /// under it.
    pub fn cells(&self) -> (out: Vec<(Cell, Vec<usize>)>)
        requires
            self.wf(),
        ensures
            forall|k: int|
                0 <= k < out@.len() ==> (#[trigger] out@[k]).1@ == self.members(out@[k].0)
                    && out@[k].1@.len() > 0,
            forall|i: int, j: int| 0 <= i < j < out@.len() ==> out@[i].0 != out@[j].0,
            forall|c: Cell| self.members(c).len() > 0 ==> has_cell(out@, c),
    {
        broadcast use vstd::std_specs::hash::group_hash_axioms;

        let mut out: Vec<(Cell, Vec<usize>)> = Vec::new();
        let mut seen: HashSet<u128> = HashSet::new();
        let mut i: usize = 0;
        while i < self.ids.len()
            invariant
                self.wf(),
                i <= self.ids@.len(),
                forall|key: u128|
                    seen@.contains(key) <==> exists|k: int|
                        0 <= k < out@.len() && cell_key((#[trigger] out@[k]).0) == key,
                forall|a: int, b: int| 0 <= a < b < out@.len() ==> out@[a].0 != out@[b].0,
                forall|k: int|
                    0 <= k < out@.len() ==> (#[trigger] out@[k]).1@ == listed(
                        self.cells@,
                        out@[k].0,
                    ) && out@[k].1@.len() > 0,
                forall|p: int, c: Cell|
                    0 <= p < i && #[trigger] self.rects()[self.ids@[p]].covers(c, self.size())
                        ==> has_cell(out@, c),
            decreases self.ids@.len() - i,
        {
            let id: usize = self.ids[i];
            assert(self.bodies().contains(id));
            let ghost before = out@;
            match self.rects.get(&id) {
                Some(rect) => {
                    let (lo, hi) = block_of(rect, self.cell_size);
                    self.add_cells(lo, hi, &mut seen, &mut out);
                    proof {
                        assert forall|k: int| 0 <= k < out@.len() implies (#[trigger] out@[k]).1@.len()
                            > 0 by {
                            if k >= before.len() {
                                assert(in_block(out@[k].0, lo, hi));
                                assert(self.members(out@[k].0).contains(id));
                            } else {
                                assert(out@[k] == before[k]);
                            }
                        }
                        assert forall|p: int, c: Cell|
                            0 <= p < i + 1 && #[trigger] self.rects()[self.ids@[p]].covers(
                                c,
                                self.size(),
                            ) implies has_cell(out@, c) by {
                            if p < i {
                                assert(has_cell(before, c));
                                let k = choose|k: int|
                                    0 <= k < before.len() && (#[trigger] before[k]).0 == c;
                                assert(out@[k].0 == c);
                            } else {
                                assert(in_block(c, lo, hi));
                            }
                        }
                    }
                },
                None => {},
            }
            i += 1;
        }
        proof {
            assert forall|c: Cell| self.members(c).len() > 0 implies has_cell(out@, c) by {
                let j = self.members(c)[0];
                assert(self.members(c).contains(j));
                assert(self.bodies().contains(j));
                let p = choose|p: int| 0 <= p < self.ids@.len() && self.ids@[p] == j;
                assert(self.rects()[self.ids@[p]].covers(c, self.size()));
            }
        }
        out
    }

    /// Whether the boxes of `a` and `b` reach into a common cell.
    pub open spec fn share_cell(&self, a: usize, b: usize) -> bool {
        &&& self.rects().contains_key(a)
        &&& self.rects().contains_key(b)
        &&& exists|c: Cell|
            self.rects()[a].covers(c, self.size()) && #[trigger] self.rects()[b].covers(
                c,
                self.size(),
            )
    }

    /// The bodies that share a cell with `id`, each once; `id` itself is among
    /// them where its box reaches into any cell. Empty where the grid does not
    /// track `id`.
    pub fn neighbours(&self, id: usize) -> (out: Vec<usize>)
        requires
            self.wf(),
        ensures
            out@.no_duplicates(),
            forall|j: usize| out@.contains(j) <==> self.share_cell(id, j),
    {
        broadcast use vstd::std_specs::hash::group_hash_axioms;

        match self.rects.get(&id) {
            Some(rect) => {
                let (lo, hi) = block_of(rect, self.cell_size);
                let out = self.members_in_block(lo, hi);
                proof {
                    assert forall|j: usize| out@.contains(j) <==> self.share_cell(id, j) by {
                        if out@.contains(j) {
                            let c = choose|c: Cell|
                                in_block(c, lo, hi) && #[trigger] listed(self.cells@, c).contains(j);
                            assert(self.members(c).contains(j));
                            assert(self.rects()[id].covers(c, self.size()) && self.rects()[j].covers(
                                c,
                                self.size(),
                            ));
                        }
                        if self.share_cell(id, j) {
                            let c = choose|c: Cell|
                                self.rects()[id].covers(c, self.size())
                                    && #[trigger] self.rects()[j].covers(c, self.size());
                            assert(self.members(c).contains(j));
                            assert(in_block(c, lo, hi) && listed(self.cells@, c).contains(j));
                        }
                    }
                }
                out
            },
            None => {
                let out: Vec<usize> = Vec::new();
                proof {
                    assert forall|j: usize| out@.contains(j) <==> self.share_cell(id, j) by {
                        assert(!Seq::<usize>::empty().contains(j));
                    }
                }
                out
            },
        }
    }

    /// Whether the box of `id` reaches into a cell that the span of the segment
    /// from `start` to `end` reaches into as well.
    pub open spec fn near_segment(&self, id: usize, start: Point3, end: Point3) -> bool {
        &&& self.rects().contains_key(id)
        &&& exists|c: Cell|
            span_of(start, end).covers(c, self.size()) && #[trigger] self.rects()[id].covers(
                c,
                self.size(),
            )
    }

    /// The candidates for a ray from `start` to `end`: every body listed under a
    /// cell that the span of the segment reaches into, each once. A body whose
    /// box the segment meets is always among them; others may be.
    pub fn get_line_ray_nodes(&self, start: Point3, end: Point3) -> (out: Vec<usize>)
        requires
            self.wf(),
        ensures
            out@.no_duplicates(),
            forall|id: usize| out@.contains(id) <==> self.near_segment(id, start, end),
            forall|id: usize|
                self.rects().contains_key(id) && (#[trigger] self.rects()[id]).is_valid()
                    && self.rects()[id].overlaps(&span_of(start, end)) ==> out@.contains(id),
    {
        broadcast use vstd::std_specs::hash::group_hash_axioms;

        let reach = span(start, end);
        let (lo, hi) = block_of(&reach, self.cell_size);
        let out = self.members_in_block(lo, hi);
        proof {
            assert forall|id: usize| out@.contains(id) <==> self.near_segment(
                id,
                start,
                end,
            ) by {
                if out@.contains(id) {
                    let c = choose|c: Cell|
                        in_block(c, lo, hi) && #[trigger] listed(self.cells@, c).contains(id);
                    assert(self.members(c).contains(id));
                    assert(span_of(start, end).covers(c, self.size()) && self.rects()[id].covers(
                        c,
                        self.size(),
                    ));
                }
                if self.near_segment(id, start, end) {
                    let c = choose|c: Cell|
                        span_of(start, end).covers(c, self.size()) && #[trigger] self.rects()[id].covers(
                            c,
                            self.size(),
                        );
                    assert(self.members(c).contains(id));
                    assert(in_block(c, lo, hi) && listed(self.cells@, c).contains(id));
                }
            }
            assert forall|id: usize|
                self.rects().contains_key(id) && (#[trigger] self.rects()[id]).is_valid()
                    && self.rects()[id].overlaps(&span_of(start, end)) implies out@.contains(
                id,
            ) by {
                let rect = self.rects()[id];
                crate::aabb::lemma_overlap_shares_cell(rect, span_of(start, end), self.size());
                let c = crate::aabb::shared_cell(rect, span_of(start, end), self.size());
                assert(span_of(start, end).covers(c, self.size()) && self.rects()[id].covers(
                    c,
                    self.size(),
                ));
            }
        }
        out
    }

    /// The bodies that the grid tracks, in the order in which it came to track them.
    pub fn nodes(&self) -> (ids: &Vec<usize>)
        ensures
            ids@ == self.bodies(),
    {
        &self.ids
    }

    /// The bodies listed under `cell`.
    pub fn cell(&self, cell: Cell) -> (ids: Vec<usize>)
        ensures
            ids@ == self.members(cell),
    {
        broadcast use vstd::std_specs::hash::group_hash_axioms;

        let key: u128 = pack(cell);
        match self.cells.get(&key) {
            Some(list) => list.clone(),
            None => Vec::new(),
        }
    }

    /// The width of a cell.
    pub fn cell_size(&self) -> (size: i64)
        ensures
            size == self.size(),
    {
        self.cell_size
    }

    /// The lists of a grid name no body twice.
    proof fn lemma_lists(&self)
        requires
            self.wf(),
        ensures
            lists_distinct(self.cells@),
    {
        assert forall|c: Cell| (#[trigger] listed(self.cells@, c)).no_duplicates() by {
            assert(self.members(c).no_duplicates());
        }
    }
}

} // verus!
