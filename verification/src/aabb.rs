use vstd::prelude::*;

verus! {

/// A point of space, or a displacement, in whole units of the simulation's
/// fixed-point scale.
#[derive(Debug, Clone, Copy, PartialEq, Eq, Structural)]
pub struct Point3 {
    pub x: i64,
    pub y: i64,
    pub z: i64,
}

impl Point3 {
    pub fn new(x: i64, y: i64, z: i64) -> (p: Self)
        ensures
            p == (Point3 { x, y, z }),
    {
        Point3 { x, y, z }
    }
}

/// The coordinates of one cell of a uniform grid.
#[derive(Debug, Clone, Copy, PartialEq, Eq, Structural)]
pub struct Cell {
    pub x: i32,
    pub y: i32,
    pub z: i32,
}

/// The cell coordinate, along one axis, of the coordinate `v` in a grid with
/// cells of width `size`: the quotient rounded down, held to the range of `i32`.
pub open spec fn cell_index(v: int, size: int) -> int {
    let q = v / size;
    if q < i32::MIN {
        i32::MIN as int
    } else if q > i32::MAX {
        i32::MAX as int
    } else {
        q
    }
}

/// A coordinate that is not less lies in a cell that is not less.
pub proof fn lemma_cell_index_monotone(v: int, w: int, size: int)
    requires
        v <= w,
        size >= 1,
    ensures
        cell_index(v, size) <= cell_index(w, size),
{
    vstd::arithmetic::div_mod::lemma_div_is_ordered(v, w, size);
}

/// The cell coordinate of the coordinate `v` in a grid with cells of width `size`.
pub fn cell_of(v: i64, size: i64) -> (c: i32)
    requires
        size >= 1,
    ensures
        c == cell_index(v as int, size as int),
{
    let q: i64 = if v >= 0 {
        v / size
    } else {
        let n: i64 = -(v + 1);
        let below: i64 = n / size;
        assert(-(below as int) - 1 == (v as int) / (size as int)) by (nonlinear_arith)
            requires
                n == -(v + 1),
                n >= 0,
                size >= 1,
                below == n / size,
        ;
        -below - 1
    };
    if q < i32::MIN as i64 {
        i32::MIN
    } else if q > i32::MAX as i64 {
        i32::MAX
    } else {
        q as i32
    }
}

/// An axis-aligned box: the points that lie between `min` and `max` on every
/// axis, the faces included.
#[derive(Debug, Clone, Copy, PartialEq, Eq, Structural)]
pub struct AABB {
    pub min: Point3,
    pub max: Point3,
}

impl AABB {
    /// Whether the box holds a point at all: `min` is not beyond `max` on any axis.
    pub open spec fn is_valid(&self) -> bool {
        &&& self.min.x <= self.max.x
        &&& self.min.y <= self.max.y
        &&& self.min.z <= self.max.z
    }

    /// Whether `point` lies in the box.
    pub open spec fn holds(&self, point: Point3) -> bool {
        &&& self.min.x <= point.x <= self.max.x
        &&& self.min.y <= point.y <= self.max.y
        &&& self.min.z <= point.z <= self.max.z
    }

    /// The three-axis interval test: on every axis the intervals of the two
    /// boxes meet. Boxes that only touch do overlap.
    pub open spec fn overlaps(&self, other: &AABB) -> bool {
        &&& self.min.x <= other.max.x && self.max.x >= other.min.x
        &&& self.min.y <= other.max.y && self.max.y >= other.min.y
        &&& self.min.z <= other.max.z && self.max.z >= other.min.z
    }

    /// Whether the box reaches into `cell` of a grid with cells of width `size`.
    pub open spec fn covers(&self, cell: Cell, size: int) -> bool {
        &&& cell_index(self.min.x as int, size) <= cell.x <= cell_index(self.max.x as int, size)
        &&& cell_index(self.min.y as int, size) <= cell.y <= cell_index(self.max.y as int, size)
        &&& cell_index(self.min.z as int, size) <= cell.z <= cell_index(self.max.z as int, size)
    }

    /// The box from `min` to `max`.
    pub fn new(min: Point3, max: Point3) -> (aabb: AABB)
        ensures
            aabb.min == min,
            aabb.max == max,
    {
        AABB { min, max }
    }

    /// The box that holds the origin alone.
    pub fn empty() -> (aabb: AABB)
        ensures
            aabb.min == (Point3 { x: 0, y: 0, z: 0 }),
            aabb.max == (Point3 { x: 0, y: 0, z: 0 }),
    {
        AABB { min: Point3 { x: 0, y: 0, z: 0 }, max: Point3 { x: 0, y: 0, z: 0 } }
    }

    /// Tests whether `point` lies in the box.
    pub fn contains(&self, point: Point3) -> (inside: bool)
        ensures
            inside == self.holds(point),
    {
        point.x >= self.min.x && point.x <= self.max.x && point.y >= self.min.y && point.y
            <= self.max.y && point.z >= self.min.z && point.z <= self.max.z
    }

    /// Tests whether the boxes overlap.
    pub fn intersects(&self, other: &AABB) -> (hit: bool)
        ensures
            hit == self.overlaps(other),
    {
        self.min.x <= other.max.x && self.max.x >= other.min.x && self.min.y <= other.max.y
            && self.max.y >= other.min.y && self.min.z <= other.max.z && self.max.z
            >= other.min.z
    }

    /// The largest coordinate of the `max` corner.
    pub fn max_component(&self) -> (m: i64)
        ensures
            m >= self.max.x && m >= self.max.y && m >= self.max.z,
            m == self.max.x || m == self.max.y || m == self.max.z,
    {
        let xy: i64 = if self.max.x >= self.max.y {
            self.max.x
        } else {
            self.max.y
        };
        if xy >= self.max.z {
            xy
        } else {
            self.max.z
        }
    }
}

/// Overlap is symmetric.
pub proof fn lemma_overlaps_symmetric(a: AABB, b: AABB)
    ensures
        a.overlaps(&b) == b.overlaps(&a),
{
}

/// Two boxes overlap exactly when some point lies in both.
pub proof fn lemma_overlaps_iff_common_point(a: AABB, b: AABB)
    requires
        a.is_valid(),
        b.is_valid(),
    ensures
        a.overlaps(&b) <==> exists|p: Point3| a.holds(p) && b.holds(p),
{
    if a.overlaps(&b) {
        let p = Point3 {
            x: if a.min.x >= b.min.x { a.min.x } else { b.min.x },
            y: if a.min.y >= b.min.y { a.min.y } else { b.min.y },
            z: if a.min.z >= b.min.z { a.min.z } else { b.min.z },
        };
        assert(a.holds(p) && b.holds(p));
    }
}

/// The cell of the lowest corner of the region that two boxes share.
pub open spec fn shared_cell(a: AABB, b: AABB, size: int) -> Cell {
    Cell {
        x: cell_index(if a.min.x >= b.min.x { a.min.x as int } else { b.min.x as int }, size) as i32,
        y: cell_index(if a.min.y >= b.min.y { a.min.y as int } else { b.min.y as int }, size) as i32,
        z: cell_index(if a.min.z >= b.min.z { a.min.z as int } else { b.min.z as int }, size) as i32,
    }
}

/// Two boxes that overlap reach into a common cell, whatever the cell width.
pub proof fn lemma_overlap_shares_cell(a: AABB, b: AABB, size: int)
    requires
        a.is_valid(),
        b.is_valid(),
        a.overlaps(&b),
        size >= 1,
    ensures
        a.covers(shared_cell(a, b, size), size),
        b.covers(shared_cell(a, b, size), size),
{
    let px: int = if a.min.x >= b.min.x { a.min.x as int } else { b.min.x as int };
    let py: int = if a.min.y >= b.min.y { a.min.y as int } else { b.min.y as int };
    let pz: int = if a.min.z >= b.min.z { a.min.z as int } else { b.min.z as int };
    lemma_cell_index_monotone(a.min.x as int, px, size);
    lemma_cell_index_monotone(b.min.x as int, px, size);
    lemma_cell_index_monotone(px, a.max.x as int, size);
    lemma_cell_index_monotone(px, b.max.x as int, size);
    lemma_cell_index_monotone(a.min.y as int, py, size);
    lemma_cell_index_monotone(b.min.y as int, py, size);
    lemma_cell_index_monotone(py, a.max.y as int, size);
    lemma_cell_index_monotone(py, b.max.y as int, size);
    lemma_cell_index_monotone(a.min.z as int, pz, size);
    lemma_cell_index_monotone(b.min.z as int, pz, size);
    lemma_cell_index_monotone(pz, a.max.z as int, size);
    lemma_cell_index_monotone(pz, b.max.z as int, size);
}

} // verus!
