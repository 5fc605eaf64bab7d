use crate::aabb::Point3;
use crate::aabb::AABB;
use vstd::prelude::*;

verus! {

/// The largest magnitude of a coordinate for which the collision arithmetic is
/// exact: two to the power 40.
pub const COORD_LIMIT: i64 = 0x100_0000_0000;

impl Point3 {
    /// Whether every coordinate is within the limit of the collision arithmetic.
    pub open spec fn in_range(&self) -> bool {
        &&& -COORD_LIMIT <= self.x <= COORD_LIMIT
        &&& -COORD_LIMIT <= self.y <= COORD_LIMIT
        &&& -COORD_LIMIT <= self.z <= COORD_LIMIT
    }

    /// Tests whether every coordinate is within the limit.
    pub fn is_in_range(&self) -> (ok: bool)
        ensures
            ok == self.in_range(),
    {
        -COORD_LIMIT <= self.x && self.x <= COORD_LIMIT && -COORD_LIMIT <= self.y && self.y
            <= COORD_LIMIT && -COORD_LIMIT <= self.z && self.z <= COORD_LIMIT
    }
}

impl AABB {
    /// Whether both corners are within the limit of the collision arithmetic.
    pub open spec fn in_range(&self) -> bool {
        self.min.in_range() && self.max.in_range()
    }

    /// Tests whether both corners are within the limit.
    pub fn is_in_range(&self) -> (ok: bool)
        ensures
            ok == self.in_range(),
    {
        self.min.is_in_range() && self.max.is_in_range()
    }
}

/// One of the three axes of space.
#[derive(Debug, Clone, Copy, PartialEq, Eq, Structural)]
pub enum Axis {
    X,
    Y,
    Z,
}

/// The coordinate of `p` along `axis`.
pub open spec fn along(p: Point3, axis: Axis) -> int {
    match axis {
        Axis::X => p.x as int,
        Axis::Y => p.y as int,
        Axis::Z => p.z as int,
    }
}

/// The vector of length `length` along `axis`.
pub open spec fn axis_vector(axis: Axis, length: int) -> Point3 {
    match axis {
        Axis::X => Point3 { x: length as i64, y: 0, z: 0 },
        Axis::Y => Point3 { x: 0, y: length as i64, z: 0 },
        Axis::Z => Point3 { x: 0, y: 0, z: length as i64 },
    }
}

/// How far two intervals reach into each other: the length of their common
/// part, and 0 where they have none.
pub open spec fn overlap_depth(a_min: int, a_max: int, b_min: int, b_max: int) -> int {
    let upper = if a_max <= b_max { a_max } else { b_max };
    let lower = if a_min >= b_min { a_min } else { b_min };
    if upper - lower < 0 {
        0
    } else {
        upper - lower
    }
}

/// How deep the first of two intervals is in the second: the least distance by
/// which it must move to leave it, which is the way to the nearer end of the
/// second; 0 where the intervals do not reach into each other.
pub open spec fn penetration_depth(a_min: int, a_max: int, b_min: int, b_max: int) -> int {
    let down = a_max - b_min;
    let up = b_max - a_min;
    let least = if down <= up { down } else { up };
    if least < 0 {
        0
    } else {
        least
    }
}

/// How deep the box `a` is in the box `b` along `axis`.
pub open spec fn depth_along(a: AABB, b: AABB, axis: Axis) -> int {
    penetration_depth(along(a.min, axis), along(a.max, axis), along(b.min, axis), along(b.max, axis))
}

/// The axis along which the first box is least deep in the second; of two axes
/// with the same depth, `X` comes before `Y` and `Y` before `Z`.
pub open spec fn separating_axis(a: AABB, b: AABB) -> Axis {
    let dx = depth_along(a, b, Axis::X);
    let dy = depth_along(a, b, Axis::Y);
    let dz = depth_along(a, b, Axis::Z);
    if dx <= dy && dx <= dz {
        Axis::X
    } else if dy <= dz {
        Axis::Y
    } else {
        Axis::Z
    }
}

/// On which side of `a` the box `b` lies along `axis`: 1 where the centre of
/// `a` comes before the centre of `b`, and -1 where it does not.
pub open spec fn side_of(a: AABB, b: AABB, axis: Axis) -> int {
    if along(a.min, axis) + along(a.max, axis) < along(b.min, axis) + along(b.max, axis) {
        1
    } else {
        -1
    }
}

/// `v` held to the interval from `lo` to `hi`.
pub open spec fn clamped(v: int, lo: int, hi: int) -> int {
    if v < lo {
        lo
    } else if v > hi {
        hi
    } else {
        v
    }
}

/// The coordinate of the centre of the interval from `min` to `max`, rounded down.
pub open spec fn centre(min: int, max: int) -> int {
    (min + max) / 2
}

/// The centre of `a`, held to the box `b` on every axis.
pub open spec fn contact_point(a: AABB, b: AABB) -> Point3 {
    Point3 {
        x: clamped(centre(a.min.x as int, a.max.x as int), b.min.x as int, b.max.x as int) as i64,
        y: clamped(centre(a.min.y as int, a.max.y as int), b.min.y as int, b.max.y as int) as i64,
        z: clamped(centre(a.min.z as int, a.max.z as int), b.min.z as int, b.max.z as int) as i64,
    }
}

/// How two overlapping boxes are to be parted.
#[derive(Debug, Clone, Copy, PartialEq, Eq, Structural)]
pub struct Penetration {
    /// The unit vector along the separating axis that points from the side of
    /// the first box to the side of the second.
    pub normal: Point3,
    /// The least displacement that takes the first box out of the second: along
    /// the separating axis, away from the second, as long as the first is deep
    /// in it. The bodies share it by their inverse masses, the second taking
    /// its share in the opposite direction.
    pub correction: Point3,
    /// Where the boxes touch: the centre of the first held to the second.
    pub point: Point3,
}

/// The penetration of `a` into `b`.
pub open spec fn penetration(a: AABB, b: AABB) -> Penetration {
    let axis = separating_axis(a, b);
    let side = side_of(a, b, axis);
    Penetration {
        normal: axis_vector(axis, side),
        correction: axis_vector(
            axis,
            if side == 1 {
                -depth_along(a, b, axis)
            } else {
                depth_along(a, b, axis)
            },
        ),
        point: contact_point(a, b),
    }
}

fn depth(a_min: i64, a_max: i64, b_min: i64, b_max: i64) -> (d: i64)
    requires
        -COORD_LIMIT <= a_min <= COORD_LIMIT,
        -COORD_LIMIT <= a_max <= COORD_LIMIT,
        -COORD_LIMIT <= b_min <= COORD_LIMIT,
        -COORD_LIMIT <= b_max <= COORD_LIMIT,
    ensures
        d == penetration_depth(a_min as int, a_max as int, b_min as int, b_max as int),
        0 <= d <= 2 * COORD_LIMIT,
{
    let down: i64 = a_max - b_min;
    let up: i64 = b_max - a_min;
    let least: i64 = if down <= up {
        down
    } else {
        up
    };
    if least < 0 {
        0
    } else {
        least
    }
}

fn clamp_centre(a_min: i64, a_max: i64, b_min: i64, b_max: i64) -> (c: i64)
    requires
        -COORD_LIMIT <= a_min <= COORD_LIMIT,
        -COORD_LIMIT <= a_max <= COORD_LIMIT,
    ensures
        c == clamped(centre(a_min as int, a_max as int), b_min as int, b_max as int),
{
    let sum: i64 = a_min + a_max;
    let mid: i64 = if sum >= 0 {
        sum / 2
    } else {
        -((1 - sum) / 2)
    };
    if mid < b_min {
        b_min
    } else if mid > b_max {
        b_max
    } else {
        mid
    }
}

/// Finds the axis of least overlap of two boxes and, along it, the contact
/// normal, the correction that parts the boxes, and the point of contact.
pub fn penetration_axis(a: &AABB, b: &AABB) -> (p: Penetration)
    requires
        a.in_range(),
        b.in_range(),
    ensures
        p == penetration(*a, *b),
{
    let dx: i64 = depth(a.min.x, a.max.x, b.min.x, b.max.x);
    let dy: i64 = depth(a.min.y, a.max.y, b.min.y, b.max.y);
    let dz: i64 = depth(a.min.z, a.max.z, b.min.z, b.max.z);
    let point = Point3 {
        x: clamp_centre(a.min.x, a.max.x, b.min.x, b.max.x),
        y: clamp_centre(a.min.y, a.max.y, b.min.y, b.max.y),
        z: clamp_centre(a.min.z, a.max.z, b.min.z, b.max.z),
    };
    if dx <= dy && dx <= dz {
        let side: i64 = if a.min.x + a.max.x < b.min.x + b.max.x {
            1
        } else {
            -1
        };
        Penetration {
            normal: Point3 { x: side, y: 0, z: 0 },
            correction: Point3 { x: if side == 1 { -dx } else { dx }, y: 0, z: 0 },
            point,
        }
    } else if dy <= dz {
        let side: i64 = if a.min.y + a.max.y < b.min.y + b.max.y {
            1
        } else {
            -1
        };
        Penetration {
            normal: Point3 { x: 0, y: side, z: 0 },
            correction: Point3 { x: 0, y: if side == 1 { -dy } else { dy }, z: 0 },
            point,
        }
    } else {
        let side: i64 = if a.min.z + a.max.z < b.min.z + b.max.z {
            1
        } else {
            -1
        };
        Penetration {
            normal: Point3 { x: 0, y: 0, z: side },
            correction: Point3 { x: 0, y: 0, z: if side == 1 { -dz } else { dz } },
            point,
        }
    }
}

/// A ball that is cast along a line.
#[derive(Debug, Clone, Copy, PartialEq, Eq, Structural)]
pub struct SphereCast {
    pub origin: Point3,
    pub radius: i64,
    pub length: i64,
}

/// The square of the distance from `v` to the interval from `lo` to `hi`.
pub open spec fn gap_squared(v: int, lo: int, hi: int) -> int {
    (clamped(v, lo, hi) - v) * (clamped(v, lo, hi) - v)
}

impl AABB {
    /// Whether the ball reaches the box: the point of the box nearest to its
    /// centre is no farther from the centre than the radius.
    pub open spec fn touches_sphere(&self, sphere: &SphereCast) -> bool {
        &&& sphere.radius >= 0
        &&& gap_squared(sphere.origin.x as int, self.min.x as int, self.max.x as int) + gap_squared(
            sphere.origin.y as int,
            self.min.y as int,
            self.max.y as int,
        ) + gap_squared(sphere.origin.z as int, self.min.z as int, self.max.z as int)
            <= sphere.radius * sphere.radius
    }

    /// The least displacement that takes this box out of `other`: along the
    /// axis on which it is least deep in it, to the nearer face of `other`.
    pub fn get_correction(&self, other: &AABB) -> (correction: Point3)
        requires
            self.in_range(),
            other.in_range(),
        ensures
            correction == penetration(*self, *other).correction,
    {
        penetration_axis(self, other).correction
    }

    /// Tests whether the ball reaches the box.
    pub fn intersect_sphere(&self, sphere: &SphereCast) -> (hit: bool)
        requires
            self.in_range(),
            sphere.origin.in_range(),
            -COORD_LIMIT <= sphere.radius <= COORD_LIMIT,
        ensures
            hit == self.touches_sphere(sphere),
    {
        if sphere.radius < 0 {
            return false;
        }
        let gx: i64 = gap(sphere.origin.x, self.min.x, self.max.x);
        let gy: i64 = gap(sphere.origin.y, self.min.y, self.max.y);
        let gz: i64 = gap(sphere.origin.z, self.min.z, self.max.z);
        proof {
            lemma_product_bound(gx as int, gx as int);
            lemma_product_bound(gy as int, gy as int);
            lemma_product_bound(gz as int, gz as int);
            lemma_product_bound(sphere.radius as int, sphere.radius as int);
        }
        let (x, y, z, r): (i128, i128, i128, i128) = (
            gx as i128,
            gy as i128,
            gz as i128,
            sphere.radius as i128,
        );
        x * x + y * y + z * z <= r * r
    }
}

fn gap(v: i64, lo: i64, hi: i64) -> (g: i64)
    requires
        -COORD_LIMIT <= v <= COORD_LIMIT,
        -COORD_LIMIT <= lo <= COORD_LIMIT,
        -COORD_LIMIT <= hi <= COORD_LIMIT,
    ensures
        g == clamped(v as int, lo as int, hi as int) - v,
        -FRACTION_LIMIT <= g <= FRACTION_LIMIT,
{
    if v < lo {
        lo - v
    } else if v > hi {
        hi - v
    } else {
        0
    }
}

/// The correction is the shortest way out: it is as long as the least of the
/// depths along the three axes, it runs along the separating axis, and the
/// first box, moved by it, touches the second — its upper face lies on the
/// lower face of the second where its centre is the lower one, and its lower
/// face on the upper face of the second otherwise.
pub proof fn lemma_correction_touches(a: AABB, b: AABB)
    requires
        a.in_range(),
        b.in_range(),
        a.overlaps(&b),
    ensures
        ({
            let axis = separating_axis(a, b);
            let shift = along(penetration(a, b).correction, axis);
            &&& depth_along(a, b, axis) <= depth_along(a, b, Axis::X)
            &&& depth_along(a, b, axis) <= depth_along(a, b, Axis::Y)
            &&& depth_along(a, b, axis) <= depth_along(a, b, Axis::Z)
            &&& penetration(a, b).correction == axis_vector(axis, shift)
            &&& side_of(a, b, axis) == 1 ==> shift == -depth_along(a, b, axis) && along(a.max, axis)
                + shift == along(b.min, axis)
            &&& side_of(a, b, axis) != 1 ==> shift == depth_along(a, b, axis) && along(a.min, axis)
                + shift == along(b.max, axis)
        }),
{
}

/// The correction parts the boxes: the first box, moved by it, no longer
/// reaches into the second along the separating axis; the two have at most a
/// face in common.
pub proof fn lemma_correction_parts(a: AABB, b: AABB)
    requires
        a.is_valid(),
        b.is_valid(),
        a.in_range(),
        b.in_range(),
        a.overlaps(&b),
    ensures
        ({
            let axis = separating_axis(a, b);
            let shift = along(penetration(a, b).correction, axis);
            overlap_depth(
                along(a.min, axis) + shift,
                along(a.max, axis) + shift,
                along(b.min, axis),
                along(b.max, axis),
            ) == 0
        }),
{
    lemma_correction_touches(a, b);
}

/// The largest numerator and denominator of a time: two to the power 41.
pub const FRACTION_LIMIT: i64 = 0x200_0000_0000;

/// A time as an exact fraction of the unit of time.
#[derive(Debug, Clone, Copy, PartialEq, Eq, Structural)]
pub struct Fraction {
    pub num: i64,
    pub den: i64,
}

impl Fraction {
    /// Whether the denominator is positive and both parts are within the limit.
    pub open spec fn is_valid(&self) -> bool {
        &&& 0 < self.den <= FRACTION_LIMIT
        &&& -FRACTION_LIMIT <= self.num <= FRACTION_LIMIT
    }

    /// Whether this fraction is at most `other`.
    pub open spec fn le(&self, other: &Fraction) -> bool {
        self.num * other.den <= other.num * self.den
    }

    /// Whether this fraction is less than `other`.
    pub open spec fn lt(&self, other: &Fraction) -> bool {
        self.num * other.den < other.num * self.den
    }

    /// Whether this fraction and `other` are the same number.
    pub open spec fn same(&self, other: &Fraction) -> bool {
        self.num * other.den == other.num * self.den
    }

    /// The later of this time and `other`: this one where they are the same number.
    pub open spec fn later(&self, other: &Fraction) -> Fraction {
        if self.lt(other) {
            *other
        } else {
            *self
        }
    }

    /// The earlier of this time and `other`: this one where they are the same number.
    pub open spec fn earlier(&self, other: &Fraction) -> Fraction {
        if other.lt(self) {
            *other
        } else {
            *self
        }
    }

    /// The whole number `n`.
    pub fn whole(n: i64) -> (f: Fraction)
        ensures
            f == (Fraction { num: n, den: 1 }),
    {
        Fraction { num: n, den: 1 }
    }

    /// Tests whether the fraction can be compared: whether it is valid.
    pub fn is_valid_time(&self) -> (ok: bool)
        ensures
            ok == self.is_valid(),
    {
        0 < self.den && self.den <= FRACTION_LIMIT && -FRACTION_LIMIT <= self.num && self.num
            <= FRACTION_LIMIT
    }

    /// Tests whether this fraction is less than `other`.
    pub fn is_less(&self, other: &Fraction) -> (less: bool)
        requires
            self.is_valid(),
            other.is_valid(),
        ensures
            less == self.lt(other),
    {
        proof {
            lemma_product_bound(self.num as int, other.den as int);
            lemma_product_bound(other.num as int, self.den as int);
        }
        (self.num as i128) * (other.den as i128) < (other.num as i128) * (self.den as i128)
    }

    /// The later of this time and `other`.
    pub fn later_of(&self, other: &Fraction) -> (out: Fraction)
        requires
            self.is_valid(),
            other.is_valid(),
        ensures
            out == self.later(other),
            out.is_valid(),
    {
        if self.is_less(other) {
            *other
        } else {
            *self
        }
    }

    /// The earlier of this time and `other`.
    pub fn earlier_of(&self, other: &Fraction) -> (out: Fraction)
        requires
            self.is_valid(),
            other.is_valid(),
        ensures
            out == self.earlier(other),
            out.is_valid(),
    {
        if other.is_less(self) {
            *other
        } else {
            *self
        }
    }
}

/// The product of two numbers within the limit is within its square.
pub proof fn lemma_product_bound(x: int, y: int)
    requires
        -FRACTION_LIMIT <= x <= FRACTION_LIMIT,
        -FRACTION_LIMIT <= y <= FRACTION_LIMIT,
    ensures
        -0x4_0000_0000_0000_0000_0000 <= x * y <= 0x4_0000_0000_0000_0000_0000,
{
    assert(-0x4_0000_0000_0000_0000_0000 <= x * y <= 0x4_0000_0000_0000_0000_0000)
        by (nonlinear_arith)
        requires
            -0x200_0000_0000 <= x <= 0x200_0000_0000,
            -0x200_0000_0000 <= y <= 0x200_0000_0000,
    ;
}

/// The order of times is transitive.
pub proof fn lemma_le_transitive(a: Fraction, b: Fraction, c: Fraction)
    requires
        a.den > 0,
        b.den > 0,
        c.den > 0,
        a.le(&b),
        b.le(&c),
    ensures
        a.le(&c),
{
    let (an, ad) = (a.num as int, a.den as int);
    let (bn, bd) = (b.num as int, b.den as int);
    let (cn, cd) = (c.num as int, c.den as int);
    assert(an * cd <= cn * ad) by (nonlinear_arith)
        requires
            ad > 0,
            bd > 0,
            cd > 0,
            an * bd <= bn * ad,
            bn * cd <= cn * bd,
    {
        assert((an * bd) * cd <= (bn * ad) * cd);
        assert((bn * cd) * ad <= (cn * bd) * ad);
        assert((an * cd) * bd <= (cn * ad) * bd);
    }
}

/// The time window in which two intervals overlap when the first moves at the
/// speed `v`, which is not 0: from the time at which its upper end reaches the
/// lower end of the second, or its lower end the upper end of the second,
/// whichever comes first, to the other.
pub open spec fn axis_window(a_min: int, a_max: int, b_min: int, b_max: int, v: int) -> (
    Fraction,
    Fraction,
) {
    let n1 = if v > 0 { b_min - a_max } else { a_max - b_min };
    let n2 = if v > 0 { b_max - a_min } else { a_min - b_max };
    let d = if v > 0 { v } else { -v };
    if n1 < n2 {
        (Fraction { num: n1 as i64, den: d as i64 }, Fraction { num: n2 as i64, den: d as i64 })
    } else {
        (Fraction { num: n2 as i64, den: d as i64 }, Fraction { num: n1 as i64, den: d as i64 })
    }
}

/// Whether two intervals that do not move against each other stay apart: they
/// do unless they reach into each other by more than a touch.
pub open spec fn stays_apart(a_min: int, a_max: int, b_min: int, b_max: int, v: int) -> bool {
    v == 0 && (a_max <= b_min || b_max <= a_min)
}

/// A time window narrowed to the time in which the intervals overlap; it is
/// left as it is where the intervals do not move against each other.
pub open spec fn narrowed(
    window: (Fraction, Fraction),
    a_min: int,
    a_max: int,
    b_min: int,
    b_max: int,
    v: int,
) -> (Fraction, Fraction) {
    if v == 0 {
        window
    } else {
        let axis = axis_window(a_min, a_max, b_min, b_max, v);
        (window.0.later(&axis.0), window.1.earlier(&axis.1))
    }
}

/// The part of the step of length `dt` in which the box `a`, moving at the
/// velocity `v` relative to `b`, overlaps `b` on every axis along which it moves.
pub open spec fn sweep_window(a: AABB, b: AABB, v: Point3, dt: Fraction) -> (Fraction, Fraction) {
    let start = (Fraction { num: 0, den: 1 }, dt);
    let x = narrowed(
        start,
        a.min.x as int,
        a.max.x as int,
        b.min.x as int,
        b.max.x as int,
        v.x as int,
    );
    let y = narrowed(x, a.min.y as int, a.max.y as int, b.min.y as int, b.max.y as int, v.y as int);
    narrowed(y, a.min.z as int, a.max.z as int, b.min.z as int, b.max.z as int, v.z as int)
}

/// The time of impact of `a`, moving at `v` relative to `b`, within a step of
/// length `dt`: the start of the sweep window, which is 0 where the boxes
/// overlap already; none where the window is empty or the boxes stay apart
/// along an axis on which they do not move.
pub open spec fn impact_time(a: AABB, b: AABB, v: Point3, dt: Fraction) -> Option<Fraction> {
    let window = sweep_window(a, b, v, dt);
    if stays_apart(a.min.x as int, a.max.x as int, b.min.x as int, b.max.x as int, v.x as int)
        || stays_apart(a.min.y as int, a.max.y as int, b.min.y as int, b.max.y as int, v.y as int)
        || stays_apart(a.min.z as int, a.max.z as int, b.min.z as int, b.max.z as int, v.z as int)
        || window.1.lt(&window.0) {
        None
    } else {
        Some(window.0)
    }
}

/// Whether two intervals overlap once the first has moved at the speed `v`
/// for the time `t`.
pub open spec fn meets_at(a_min: int, a_max: int, b_min: int, b_max: int, v: int, t: Fraction) -> bool {
    &&& a_min * t.den + v * t.num <= b_max * t.den
    &&& a_max * t.den + v * t.num >= b_min * t.den
}

/// A time that lies in the window of an axis is a time at which the intervals
/// overlap.
pub proof fn lemma_window_meets(a_min: int, a_max: int, b_min: int, b_max: int, v: int, t: Fraction)
    requires
        v != 0,
        t.den > 0,
        a_min <= a_max,
        b_min <= b_max,
        -COORD_LIMIT <= a_min && a_max <= COORD_LIMIT,
        -COORD_LIMIT <= b_min && b_max <= COORD_LIMIT,
        -COORD_LIMIT <= v <= COORD_LIMIT,
        axis_window(a_min, a_max, b_min, b_max, v).0.le(&t),
        t.le(&axis_window(a_min, a_max, b_min, b_max, v).1),
    ensures
        meets_at(a_min, a_max, b_min, b_max, v, t),
{
    let n = t.num as int;
    let d = t.den as int;
    if v > 0 {
        assert((b_min - a_max) * d <= n * v);
        assert(n * v <= (b_max - a_min) * d);
        assert(a_min * d + v * n <= b_max * d) by (nonlinear_arith)
            requires
                n * v <= (b_max - a_min) * d,
        ;
        assert(a_max * d + v * n >= b_min * d) by (nonlinear_arith)
            requires
                (b_min - a_max) * d <= n * v,
        ;
    } else {
        assert((a_min - b_max) * d <= n * (-v));
        assert(n * (-v) <= (a_max - b_min) * d);
        assert(a_min * d + v * n <= b_max * d) by (nonlinear_arith)
            requires
                (a_min - b_max) * d <= n * (-v),
        ;
        assert(a_max * d + v * n >= b_min * d) by (nonlinear_arith)
            requires
                n * (-v) <= (a_max - b_min) * d,
        ;
    }
}

/// Intervals that overlap and do not move against each other overlap at every time.
pub proof fn lemma_still_meets(a_min: int, a_max: int, b_min: int, b_max: int, t: Fraction)
    requires
        t.den > 0,
        a_min <= b_max,
        b_min <= a_max,
    ensures
        meets_at(a_min, a_max, b_min, b_max, 0, t),
{
    let n = t.num as int;
    let d = t.den as int;
    assert(a_min * d + 0 * n <= b_max * d) by (nonlinear_arith)
        requires
            d > 0,
            a_min <= b_max,
    ;
    assert(a_max * d + 0 * n >= b_min * d) by (nonlinear_arith)
        requires
            d > 0,
            b_min <= a_max,
    ;
}

/// A narrowed window lies within the window it was narrowed from and within
/// the window of the axis.
pub proof fn lemma_narrowed_within(
    window: (Fraction, Fraction),
    a_min: int,
    a_max: int,
    b_min: int,
    b_max: int,
    v: int,
)
    requires
        window.0.den > 0,
        window.1.den > 0,
        -COORD_LIMIT <= a_min <= COORD_LIMIT,
        -COORD_LIMIT <= a_max <= COORD_LIMIT,
        -COORD_LIMIT <= b_min <= COORD_LIMIT,
        -COORD_LIMIT <= b_max <= COORD_LIMIT,
        -COORD_LIMIT <= v <= COORD_LIMIT,
    ensures
        ({
            let out = narrowed(window, a_min, a_max, b_min, b_max, v);
            &&& out.0.den > 0
            &&& out.1.den > 0
            &&& window.0.le(&out.0)
            &&& out.1.le(&window.1)
            &&& v != 0 ==> axis_window(a_min, a_max, b_min, b_max, v).0.le(&out.0) && out.1.le(
                &axis_window(a_min, a_max, b_min, b_max, v).1,
            )
        }),
{
}

/// The time of impact is a time of contact: it lies within the step, and the
/// box `a`, moved at `v` for that time, overlaps `b` on every axis.
pub proof fn lemma_impact_is_contact(a: AABB, b: AABB, v: Point3, dt: Fraction)
    requires
        a.is_valid(),
        b.is_valid(),
        a.in_range(),
        b.in_range(),
        v.in_range(),
        dt.den > 0,
        impact_time(a, b, v, dt) is Some,
    ensures
        ({
            let t = impact_time(a, b, v, dt)->0;
            &&& t.den > 0
            &&& (Fraction { num: 0, den: 1 }).le(&t)
            &&& t.le(&dt)
            &&& meets_at(
                a.min.x as int,
                a.max.x as int,
                b.min.x as int,
                b.max.x as int,
                v.x as int,
                t,
            )
            &&& meets_at(
                a.min.y as int,
                a.max.y as int,
                b.min.y as int,
                b.max.y as int,
                v.y as int,
                t,
            )
            &&& meets_at(
                a.min.z as int,
                a.max.z as int,
                b.min.z as int,
                b.max.z as int,
                v.z as int,
                t,
            )
        }),
{
    let zero = Fraction { num: 0, den: 1 };
    let w0 = (zero, dt);
    let (ax0, ax1, bx0, bx1, vx) = (
        a.min.x as int,
        a.max.x as int,
        b.min.x as int,
        b.max.x as int,
        v.x as int,
    );
    let (ay0, ay1, by0, by1, vy) = (
        a.min.y as int,
        a.max.y as int,
        b.min.y as int,
        b.max.y as int,
        v.y as int,
    );
    let (az0, az1, bz0, bz1, vz) = (
        a.min.z as int,
        a.max.z as int,
        b.min.z as int,
        b.max.z as int,
        v.z as int,
    );
    let wx = narrowed(w0, ax0, ax1, bx0, bx1, vx);
    let wy = narrowed(wx, ay0, ay1, by0, by1, vy);
    let wz = narrowed(wy, az0, az1, bz0, bz1, vz);
    lemma_narrowed_within(w0, ax0, ax1, bx0, bx1, vx);
    lemma_narrowed_within(wx, ay0, ay1, by0, by1, vy);
    lemma_narrowed_within(wy, az0, az1, bz0, bz1, vz);
    let t = wz.0;
    let exit = wz.1;
    assert(t.le(&exit));
    // The window only shrinks: its start can only grow, its end only fall.
    lemma_le_transitive(w0.0, wx.0, wy.0);
    lemma_le_transitive(w0.0, wy.0, t);
    lemma_le_transitive(wx.0, wy.0, t);
    lemma_le_transitive(exit, wy.1, wx.1);
    lemma_le_transitive(exit, wx.1, w0.1);
    lemma_le_transitive(t, exit, dt);
    if vx != 0 {
        let axis = axis_window(ax0, ax1, bx0, bx1, vx);
        lemma_le_transitive(axis.0, wx.0, t);
        lemma_le_transitive(t, exit, wx.1);
        lemma_le_transitive(t, wx.1, axis.1);
        lemma_window_meets(ax0, ax1, bx0, bx1, vx, t);
    } else {
        lemma_still_meets(ax0, ax1, bx0, bx1, t);
    }
    if vy != 0 {
        let axis = axis_window(ay0, ay1, by0, by1, vy);
        lemma_le_transitive(axis.0, wy.0, t);
        lemma_le_transitive(t, exit, wy.1);
        lemma_le_transitive(t, wy.1, axis.1);
        lemma_window_meets(ay0, ay1, by0, by1, vy, t);
    } else {
        lemma_still_meets(ay0, ay1, by0, by1, t);
    }
    if vz != 0 {
        let axis = axis_window(az0, az1, bz0, bz1, vz);
        lemma_le_transitive(t, exit, axis.1);
        lemma_window_meets(az0, az1, bz0, bz1, vz, t);
    } else {
        lemma_still_meets(az0, az1, bz0, bz1, t);
    }
}

/// A time at which the intervals overlap lies in the window of the axis.
pub proof fn lemma_meets_within_window(
    a_min: int,
    a_max: int,
    b_min: int,
    b_max: int,
    v: int,
    s: Fraction,
)
    requires
        v != 0,
        s.den > 0,
        a_min <= a_max,
        b_min <= b_max,
        -COORD_LIMIT <= a_min && a_max <= COORD_LIMIT,
        -COORD_LIMIT <= b_min && b_max <= COORD_LIMIT,
        -COORD_LIMIT <= v <= COORD_LIMIT,
        meets_at(a_min, a_max, b_min, b_max, v, s),
    ensures
        axis_window(a_min, a_max, b_min, b_max, v).0.le(&s),
        s.le(&axis_window(a_min, a_max, b_min, b_max, v).1),
{
    let n = s.num as int;
    let d = s.den as int;
    if v > 0 {
        assert((b_min - a_max) * d <= n * v) by (nonlinear_arith)
            requires
                a_max * d + v * n >= b_min * d,
        ;
        assert(n * v <= (b_max - a_min) * d) by (nonlinear_arith)
            requires
                a_min * d + v * n <= b_max * d,
        ;
    } else {
        assert((a_min - b_max) * d <= n * (-v)) by (nonlinear_arith)
            requires
                a_min * d + v * n <= b_max * d,
        ;
        assert(n * (-v) <= (a_max - b_min) * d) by (nonlinear_arith)
            requires
                a_max * d + v * n >= b_min * d,
        ;
    }
}

/// A time that lies in a window and in the window of an axis lies in the
/// window narrowed by the axis.
pub proof fn lemma_within_narrowed(
    window: (Fraction, Fraction),
    a_min: int,
    a_max: int,
    b_min: int,
    b_max: int,
    v: int,
    s: Fraction,
)
    requires
        window.0.le(&s),
        s.le(&window.1),
        v != 0 ==> axis_window(a_min, a_max, b_min, b_max, v).0.le(&s) && s.le(
            &axis_window(a_min, a_max, b_min, b_max, v).1,
        ),
    ensures
        narrowed(window, a_min, a_max, b_min, b_max, v).0.le(&s),
        s.le(&narrowed(window, a_min, a_max, b_min, b_max, v).1),
{
}

/// No impact is missed: where the box `a`, moved at `v` for a time `s` within
/// the step, overlaps `b` on every axis, and the boxes do not stay apart along
/// an axis on which they do not move, there is a time of impact, and it is not
/// later than `s`.
pub proof fn lemma_impact_found(a: AABB, b: AABB, v: Point3, dt: Fraction, s: Fraction)
    requires
        a.is_valid(),
        b.is_valid(),
        a.in_range(),
        b.in_range(),
        v.in_range(),
        dt.den > 0,
        s.den > 0,
        (Fraction { num: 0, den: 1 }).le(&s),
        s.le(&dt),
        meets_at(a.min.x as int, a.max.x as int, b.min.x as int, b.max.x as int, v.x as int, s),
        meets_at(a.min.y as int, a.max.y as int, b.min.y as int, b.max.y as int, v.y as int, s),
        meets_at(a.min.z as int, a.max.z as int, b.min.z as int, b.max.z as int, v.z as int, s),
        !stays_apart(a.min.x as int, a.max.x as int, b.min.x as int, b.max.x as int, v.x as int),
        !stays_apart(a.min.y as int, a.max.y as int, b.min.y as int, b.max.y as int, v.y as int),
        !stays_apart(a.min.z as int, a.max.z as int, b.min.z as int, b.max.z as int, v.z as int),
    ensures
        impact_time(a, b, v, dt) is Some,
        impact_time(a, b, v, dt)->0.le(&s),
{
    let zero = Fraction { num: 0, den: 1 };
    let w0 = (zero, dt);
    let (ax0, ax1, bx0, bx1, vx) = (
        a.min.x as int,
        a.max.x as int,
        b.min.x as int,
        b.max.x as int,
        v.x as int,
    );
    let (ay0, ay1, by0, by1, vy) = (
        a.min.y as int,
        a.max.y as int,
        b.min.y as int,
        b.max.y as int,
        v.y as int,
    );
    let (az0, az1, bz0, bz1, vz) = (
        a.min.z as int,
        a.max.z as int,
        b.min.z as int,
        b.max.z as int,
        v.z as int,
    );
    let wx = narrowed(w0, ax0, ax1, bx0, bx1, vx);
    let wy = narrowed(wx, ay0, ay1, by0, by1, vy);
    let wz = narrowed(wy, az0, az1, bz0, bz1, vz);
    if vx != 0 {
        lemma_meets_within_window(ax0, ax1, bx0, bx1, vx, s);
    }
    if vy != 0 {
        lemma_meets_within_window(ay0, ay1, by0, by1, vy, s);
    }
    if vz != 0 {
        lemma_meets_within_window(az0, az1, bz0, bz1, vz, s);
    }
    lemma_within_narrowed(w0, ax0, ax1, bx0, bx1, vx, s);
    lemma_within_narrowed(wx, ay0, ay1, by0, by1, vy, s);
    lemma_within_narrowed(wy, az0, az1, bz0, bz1, vz, s);
    lemma_narrowed_within(w0, ax0, ax1, bx0, bx1, vx);
    lemma_narrowed_within(wx, ay0, ay1, by0, by1, vy);
    lemma_narrowed_within(wy, az0, az1, bz0, bz1, vz);
    lemma_le_transitive(wz.0, s, wz.1);
}

fn narrow(
    window: (Fraction, Fraction),
    a_min: i64,
    a_max: i64,
    b_min: i64,
    b_max: i64,
    v: i64,
) -> (out: (Fraction, Fraction))
    requires
        window.0.is_valid(),
        window.1.is_valid(),
        -COORD_LIMIT <= a_min <= COORD_LIMIT,
        -COORD_LIMIT <= a_max <= COORD_LIMIT,
        -COORD_LIMIT <= b_min <= COORD_LIMIT,
        -COORD_LIMIT <= b_max <= COORD_LIMIT,
        -COORD_LIMIT <= v <= COORD_LIMIT,
    ensures
        out == narrowed(window, a_min as int, a_max as int, b_min as int, b_max as int, v as int),
        out.0.is_valid(),
        out.1.is_valid(),
{
    if v == 0 {
        return window;
    }
    let n1: i64 = if v > 0 {
        b_min - a_max
    } else {
        a_max - b_min
    };
    let n2: i64 = if v > 0 {
        b_max - a_min
    } else {
        a_min - b_max
    };
    let d: i64 = if v > 0 {
        v
    } else {
        -v
    };
    let (lo, hi) = if n1 < n2 {
        (Fraction { num: n1, den: d }, Fraction { num: n2, den: d })
    } else {
        (Fraction { num: n2, den: d }, Fraction { num: n1, den: d })
    };
    (window.0.later_of(&lo), window.1.earlier_of(&hi))
}

/// The swept test: the time within the step at which the box `a`, moving at
/// the velocity `v` relative to `b`, comes to overlap `b`.
pub fn time_of_impact(a: &AABB, b: &AABB, v: Point3, dt: Fraction) -> (toi: Option<Fraction>)
    requires
        a.in_range(),
        b.in_range(),
        v.in_range(),
        dt.is_valid(),
    ensures
        toi == impact_time(*a, *b, v, dt),
        toi matches Some(t) ==> t.is_valid(),
{
    if (v.x == 0 && (a.max.x <= b.min.x || b.max.x <= a.min.x)) || (v.y == 0 && (a.max.y
        <= b.min.y || b.max.y <= a.min.y)) || (v.z == 0 && (a.max.z <= b.min.z || b.max.z
        <= a.min.z)) {
        return None;
    }
    let start = (Fraction { num: 0, den: 1 }, dt);
    let x = narrow(start, a.min.x, a.max.x, b.min.x, b.max.x, v.x);
    let y = narrow(x, a.min.y, a.max.y, b.min.y, b.max.y, v.y);
    let z = narrow(y, a.min.z, a.max.z, b.min.z, b.max.z, v.z);
    if z.1.is_less(&z.0) {
        None
    } else {
        Some(z.0)
    }
}

/// The window of ray parameters at which a ray that starts at `start` and runs
/// by `dir`, which is not 0, for one unit of its parameter lies within the
/// interval from `min` to `max`.
pub open spec fn ray_axis(min: int, max: int, start: int, dir: int) -> (Fraction, Fraction) {
    let n1 = if dir > 0 { min - start } else { start - min };
    let n2 = if dir > 0 { max - start } else { start - max };
    let d = if dir > 0 { dir } else { -dir };
    if n1 < n2 {
        (Fraction { num: n1 as i64, den: d as i64 }, Fraction { num: n2 as i64, den: d as i64 })
    } else {
        (Fraction { num: n2 as i64, den: d as i64 }, Fraction { num: n1 as i64, den: d as i64 })
    }
}

/// Whether a ray that does not move along an axis misses the interval from
/// `min` to `max` on it: it does unless it starts strictly inside.
pub open spec fn ray_misses(min: int, max: int, start: int, dir: int) -> bool {
    dir == 0 && !(min < start < max)
}

/// The window of a ray narrowed by one more axis; `None` stands for a window
/// that no axis has narrowed yet.
pub open spec fn ray_narrowed(
    window: Option<(Fraction, Fraction)>,
    min: int,
    max: int,
    start: int,
    dir: int,
) -> Option<(Fraction, Fraction)> {
    if dir == 0 {
        window
    } else {
        let axis = ray_axis(min, max, start, dir);
        match window {
            Some(w) => Some((w.0.later(&axis.0), w.1.earlier(&axis.1))),
            None => Some(axis),
        }
    }
}

/// The window of parameters at which the line through `start` and `end` lies
/// within the box on every axis along which it moves.
pub open spec fn ray_window(aabb: AABB, start: Point3, end: Point3) -> Option<(Fraction, Fraction)> {
    let x = ray_narrowed(
        None,
        aabb.min.x as int,
        aabb.max.x as int,
        start.x as int,
        end.x - start.x,
    );
    let y = ray_narrowed(x, aabb.min.y as int, aabb.max.y as int, start.y as int, end.y - start.y);
    ray_narrowed(y, aabb.min.z as int, aabb.max.z as int, start.z as int, end.z - start.z)
}

/// Where the segment from `start` to `end` enters and leaves the box, as
/// fractions of the segment: the window of the line, provided it is not empty,
/// does not begin beyond the end of the segment and does not end before its
/// start. A segment that is a single point inside the box is in it from 0 to 1.
pub open spec fn ray_hit(aabb: AABB, start: Point3, end: Point3) -> Option<(Fraction, Fraction)> {
    if ray_misses(aabb.min.x as int, aabb.max.x as int, start.x as int, end.x - start.x)
        || ray_misses(aabb.min.y as int, aabb.max.y as int, start.y as int, end.y - start.y)
        || ray_misses(aabb.min.z as int, aabb.max.z as int, start.z as int, end.z - start.z) {
        None
    } else {
        match ray_window(aabb, start, end) {
            None => Some((Fraction { num: 0, den: 1 }, Fraction { num: 1, den: 1 })),
            Some(w) => if w.0.le(&w.1) && w.0.le(&(Fraction { num: 1, den: 1 })) && (Fraction {
                num: 0,
                den: 1,
            }).le(&w.1) {
                Some(w)
            } else {
                None
            },
        }
    }
}

/// The start of a window; 0 where there is none.
pub open spec fn entry_of(window: Option<(Fraction, Fraction)>) -> Fraction {
    match window {
        Some(w) => w.0,
        None => Fraction { num: 0, den: 1 },
    }
}

/// The end of a window; 1 where there is none.
pub open spec fn exit_of(window: Option<(Fraction, Fraction)>) -> Fraction {
    match window {
        Some(w) => w.1,
        None => Fraction { num: 1, den: 1 },
    }
}

/// Whether the point of the ray at the parameter `t` lies within the interval
/// from `min` to `max`.
pub open spec fn inside_at(min: int, max: int, start: int, dir: int, t: Fraction) -> bool {
    &&& min * t.den <= start * t.den + dir * t.num
    &&& start * t.den + dir * t.num <= max * t.den
}

/// A parameter in the window of an axis is one at which the ray lies within the
/// interval.
pub proof fn lemma_ray_axis_inside(min: int, max: int, start: int, dir: int, t: Fraction)
    requires
        dir != 0,
        t.den > 0,
        min <= max,
        -COORD_LIMIT <= min && max <= COORD_LIMIT,
        -COORD_LIMIT <= start <= COORD_LIMIT,
        -2 * COORD_LIMIT <= dir <= 2 * COORD_LIMIT,
        ray_axis(min, max, start, dir).0.le(&t),
        t.le(&ray_axis(min, max, start, dir).1),
    ensures
        inside_at(min, max, start, dir, t),
{
    let n = t.num as int;
    let d = t.den as int;
    if dir > 0 {
        assert((min - start) * d <= n * dir);
        assert(n * dir <= (max - start) * d);
        assert(min * d <= start * d + dir * n) by (nonlinear_arith)
            requires
                (min - start) * d <= n * dir,
        ;
        assert(start * d + dir * n <= max * d) by (nonlinear_arith)
            requires
                n * dir <= (max - start) * d,
        ;
    } else {
        assert((start - max) * d <= n * (-dir));
        assert(n * (-dir) <= (start - min) * d);
        assert(min * d <= start * d + dir * n) by (nonlinear_arith)
            requires
                n * (-dir) <= (start - min) * d,
        ;
        assert(start * d + dir * n <= max * d) by (nonlinear_arith)
            requires
                (start - max) * d <= n * (-dir),
        ;
    }
}

/// A ray that does not move along an axis and starts within the interval lies
/// within it at every parameter.
pub proof fn lemma_ray_still_inside(min: int, max: int, start: int, t: Fraction)
    requires
        t.den > 0,
        min <= start <= max,
    ensures
        inside_at(min, max, start, 0, t),
{
    let n = t.num as int;
    let d = t.den as int;
    assert(min * d <= start * d + 0 * n) by (nonlinear_arith)
        requires
            d > 0,
            min <= start,
    ;
    assert(start * d + 0 * n <= max * d) by (nonlinear_arith)
        requires
            d > 0,
            start <= max,
    ;
}

/// What narrowing by an axis does to the window of a ray: the outcome lies
/// within the window before and within the window of the axis.
pub proof fn lemma_ray_narrowed_within(
    window: Option<(Fraction, Fraction)>,
    min: int,
    max: int,
    start: int,
    dir: int,
)
    requires
        window matches Some(w) ==> w.0.den > 0 && w.1.den > 0,
        -COORD_LIMIT <= min <= COORD_LIMIT,
        -COORD_LIMIT <= max <= COORD_LIMIT,
        -COORD_LIMIT <= start <= COORD_LIMIT,
        -2 * COORD_LIMIT <= dir <= 2 * COORD_LIMIT,
    ensures
        ({
            let out = ray_narrowed(window, min, max, start, dir);
            &&& out matches Some(o) ==> o.0.den > 0 && o.1.den > 0
            &&& window is Some ==> out is Some && entry_of(window).le(&entry_of(out)) && exit_of(out).le(&exit_of(window))
            &&& dir != 0 ==> out is Some && ray_axis(min, max, start, dir).0.le(&entry_of(out))
                && exit_of(out).le(&ray_axis(min, max, start, dir).1)
            &&& dir == 0 ==> out == window
        }),
{
}

/// A ray that hits passes through the box within the segment: at the later of
/// its entry and the start of the segment, the ray is at a point of the segment
/// that lies in the box.
pub proof fn lemma_ray_hit_is_inside(aabb: AABB, start: Point3, end: Point3)
    requires
        aabb.is_valid(),
        aabb.in_range(),
        start.in_range(),
        end.in_range(),
        ray_hit(aabb, start, end) is Some,
    ensures
        ({
            let zero = Fraction { num: 0, den: 1 };
            let one = Fraction { num: 1, den: 1 };
            let t = zero.later(&entry_of(ray_hit(aabb, start, end)));
            &&& t.den > 0
            &&& zero.le(&t)
            &&& t.le(&one)
            &&& inside_at(aabb.min.x as int, aabb.max.x as int, start.x as int, end.x - start.x, t)
            &&& inside_at(aabb.min.y as int, aabb.max.y as int, start.y as int, end.y - start.y, t)
            &&& inside_at(aabb.min.z as int, aabb.max.z as int, start.z as int, end.z - start.z, t)
        }),
{
    let zero = Fraction { num: 0, den: 1 };
    let one = Fraction { num: 1, den: 1 };
    let (x0, x1, sx, dx) = (aabb.min.x as int, aabb.max.x as int, start.x as int, end.x - start.x);
    let (y0, y1, sy, dy) = (aabb.min.y as int, aabb.max.y as int, start.y as int, end.y - start.y);
    let (z0, z1, sz, dz) = (aabb.min.z as int, aabb.max.z as int, start.z as int, end.z - start.z);
    let wx = ray_narrowed(None, x0, x1, sx, dx);
    let wy = ray_narrowed(wx, y0, y1, sy, dy);
    let wz = ray_narrowed(wy, z0, z1, sz, dz);
    lemma_ray_narrowed_within(None, x0, x1, sx, dx);
    lemma_ray_narrowed_within(wx, y0, y1, sy, dy);
    lemma_ray_narrowed_within(wy, z0, z1, sz, dz);
    let hit = ray_hit(aabb, start, end)->0;
    let entry = hit.0;
    let exit = hit.1;
    let t = zero.later(&entry);
    assert(entry.le(&exit) && entry.le(&one) && zero.le(&exit));
    assert(t.le(&exit));
    assert(entry.le(&t));
    if dx != 0 {
        let axis = ray_axis(x0, x1, sx, dx);
        let w = wx->0;
        if wy is Some {
            lemma_le_transitive(w.0, entry_of(wy), entry);
            lemma_le_transitive(exit, exit_of(wy), w.1);
        }
        lemma_le_transitive(axis.0, w.0, entry);
        lemma_le_transitive(axis.0, entry, t);
        lemma_le_transitive(exit, w.1, axis.1);
        lemma_le_transitive(t, exit, axis.1);
        lemma_ray_axis_inside(x0, x1, sx, dx, t);
    } else {
        lemma_ray_still_inside(x0, x1, sx, t);
    }
    if dy != 0 {
        let axis = ray_axis(y0, y1, sy, dy);
        let w = wy->0;
        lemma_le_transitive(axis.0, w.0, entry);
        lemma_le_transitive(axis.0, entry, t);
        lemma_le_transitive(exit, w.1, axis.1);
        lemma_le_transitive(t, exit, axis.1);
        lemma_ray_axis_inside(y0, y1, sy, dy, t);
    } else {
        lemma_ray_still_inside(y0, y1, sy, t);
    }
    if dz != 0 {
        let axis = ray_axis(z0, z1, sz, dz);
        lemma_le_transitive(axis.0, entry, t);
        lemma_le_transitive(t, exit, axis.1);
        lemma_ray_axis_inside(z0, z1, sz, dz, t);
    } else {
        lemma_ray_still_inside(z0, z1, sz, t);
    }
}

/// The entry and the exit of a ray into a box within the limit, cast between
/// points within the limit, are fractions that can be compared.
pub proof fn lemma_ray_hit_valid(aabb: AABB, start: Point3, end: Point3)
    requires
        aabb.in_range(),
        start.in_range(),
        end.in_range(),
    ensures
        entry_of(ray_hit(aabb, start, end)).is_valid(),
        exit_of(ray_hit(aabb, start, end)).is_valid(),
{
    let x = ray_narrowed(
        None,
        aabb.min.x as int,
        aabb.max.x as int,
        start.x as int,
        end.x - start.x,
    );
    let y = ray_narrowed(x, aabb.min.y as int, aabb.max.y as int, start.y as int, end.y - start.y);
    let z = ray_narrowed(y, aabb.min.z as int, aabb.max.z as int, start.z as int, end.z - start.z);
    assert(entry_of(x).is_valid() && exit_of(x).is_valid());
    assert(entry_of(y).is_valid() && exit_of(y).is_valid());
    assert(entry_of(z).is_valid() && exit_of(z).is_valid());
}

fn ray_narrow(window: Option<(Fraction, Fraction)>, min: i64, max: i64, start: i64, end: i64) -> (out:
    Option<(Fraction, Fraction)>)
    requires
        window matches Some(w) ==> w.0.is_valid() && w.1.is_valid(),
        -COORD_LIMIT <= min <= COORD_LIMIT,
        -COORD_LIMIT <= max <= COORD_LIMIT,
        -COORD_LIMIT <= start <= COORD_LIMIT,
        -COORD_LIMIT <= end <= COORD_LIMIT,
    ensures
        out == ray_narrowed(window, min as int, max as int, start as int, end - start),
        out matches Some(w) ==> w.0.is_valid() && w.1.is_valid(),
{
    let dir: i64 = end - start;
    if dir == 0 {
        return window;
    }
    let n1: i64 = if dir > 0 {
        min - start
    } else {
        start - min
    };
    let n2: i64 = if dir > 0 {
        max - start
    } else {
        start - max
    };
    let d: i64 = if dir > 0 {
        dir
    } else {
        -dir
    };
    let (lo, hi) = if n1 < n2 {
        (Fraction { num: n1, den: d }, Fraction { num: n2, den: d })
    } else {
        (Fraction { num: n2, den: d }, Fraction { num: n1, den: d })
    };
    match window {
        Some(w) => Some((w.0.later_of(&lo), w.1.earlier_of(&hi))),
        None => Some((lo, hi)),
    }
}

impl AABB {
    /// The fractions of the segment from `start` to `end` at which it enters
    /// and leaves this box, if it meets it.
    pub fn intersect_ray(&self, start: Point3, end: Point3) -> (hit: Option<(Fraction, Fraction)>)
        requires
            self.in_range(),
            start.in_range(),
            end.in_range(),
        ensures
            hit == ray_hit(*self, start, end),
            hit matches Some(w) ==> w.0.is_valid() && w.1.is_valid(),
    {
        ray_aabb(self, start, end)
    }
}

/// The slab test of a segment against a box: the fractions of the segment at
/// which it enters and leaves the box, if it meets it.
pub fn ray_aabb(aabb: &AABB, start: Point3, end: Point3) -> (hit: Option<(Fraction, Fraction)>)
    requires
        aabb.in_range(),
        start.in_range(),
        end.in_range(),
    ensures
        hit == ray_hit(*aabb, start, end),
        hit matches Some(w) ==> w.0.is_valid() && w.1.is_valid(),
{
    if (end.x - start.x == 0 && !(aabb.min.x < start.x && start.x < aabb.max.x)) || (end.y
        - start.y == 0 && !(aabb.min.y < start.y && start.y < aabb.max.y)) || (end.z - start.z
        == 0 && !(aabb.min.z < start.z && start.z < aabb.max.z)) {
        return None;
    }
    let x = ray_narrow(None, aabb.min.x, aabb.max.x, start.x, end.x);
    let y = ray_narrow(x, aabb.min.y, aabb.max.y, start.y, end.y);
    let z = ray_narrow(y, aabb.min.z, aabb.max.z, start.z, end.z);
    let zero = Fraction { num: 0, den: 1 };
    let one = Fraction { num: 1, den: 1 };
    match z {
        None => Some((zero, one)),
        Some(w) => {
            if !w.1.is_less(&w.0) && !one.is_less(&w.0) && !w.1.is_less(&zero) {
                Some(w)
            } else {
                None
            }
        },
    }
}

} // verus!
