use crate::aabb::lemma_overlap_shares_cell;
use crate::aabb::lemma_overlaps_symmetric;
use crate::aabb::shared_cell;
use crate::aabb::Cell;
use crate::aabb::Point3;
use crate::collision::penetration;
use crate::collision::penetration_axis;
use crate::collision::Fraction;
use crate::spatial_grid::SpatialGrid;
use crate::types::PhycisObjectType;
use vstd::prelude::*;

verus! {

/// Two bodies whose boxes overlap, and how they are to be parted; `node1` is
/// the body with the lesser number.
#[derive(Debug, Clone, Copy, PartialEq, Eq, Structural)]
pub struct Collision {
    pub node1: usize,
    pub node2: usize,
    /// The unit vector along the axis on which `node1` is least deep in `node2`,
    /// from the side of `node1` to the side of `node2`.
    pub normal: Point3,
    /// The point of contact: the centre of the box of `node1`, held to the box
    /// of `node2`.
    pub point: Point3,
    /// The least displacement that takes the box of `node1` out of the box of
    /// `node2`, so that the two touch.
    pub correction: Point3,
}

impl Collision {
    /// Whether this is the pair of `a` and `b`, in either order.
    pub open spec fn names(&self, a: usize, b: usize) -> bool {
        (self.node1 == a && self.node2 == b) || (self.node1 == b && self.node2 == a)
    }

    /// The two bodies, `node1` first.
    pub open spec fn pair(&self) -> (usize, usize) {
        (self.node1, self.node2)
    }
}

/// The collision of the bodies `a` and `b` of the grid: the penetration of the
/// box of `a` into the box of `b`.
pub open spec fn contact_of(grid: &SpatialGrid, a: usize, b: usize) -> Collision {
    let p = penetration(grid.rects()[a], grid.rects()[b]);
    Collision { node1: a, node2: b, normal: p.normal, point: p.point, correction: p.correction }
}

/// Whether `a` and `b` are two bodies of the grid whose boxes overlap and that
/// are listed under a common cell.
pub open spec fn in_contact(grid: &SpatialGrid, a: usize, b: usize) -> bool {
    &&& a != b
    &&& grid.share_cell(a, b)
    &&& grid.rects()[a].overlaps(&grid.rects()[b])
}

/// Whether `found` is the list of the contacts of `grid`: it holds the
/// collision of every two bodies in contact, the lesser number first, once, and
/// nothing else.
pub open spec fn lists_contacts(grid: &SpatialGrid, found: Seq<Collision>) -> bool {
    &&& found.no_duplicates()
    &&& forall|c: Collision| #[trigger]
        found.contains(c) <==> c.node1 < c.node2 && in_contact(grid, c.node1, c.node2) && c
            == contact_of(grid, c.node1, c.node2)
}

/// Contact does not depend on the order in which the two bodies are named.
pub proof fn lemma_in_contact_symmetric(grid: &SpatialGrid, a: usize, b: usize)
    ensures
        in_contact(grid, a, b) == in_contact(grid, b, a),
{
    if in_contact(grid, a, b) {
        lemma_overlaps_symmetric(grid.rects()[a], grid.rects()[b]);
        let c = choose|c: Cell|
            grid.rects()[a].covers(c, grid.size()) && #[trigger] grid.rects()[b].covers(
                c,
                grid.size(),
            );
        assert(grid.rects()[b].covers(c, grid.size()) && grid.rects()[a].covers(c, grid.size()));
    }
    if in_contact(grid, b, a) {
        lemma_overlaps_symmetric(grid.rects()[a], grid.rects()[b]);
        let c = choose|c: Cell|
            grid.rects()[b].covers(c, grid.size()) && #[trigger] grid.rects()[a].covers(
                c,
                grid.size(),
            );
        assert(grid.rects()[a].covers(c, grid.size()) && grid.rects()[b].covers(c, grid.size()));
    }
}

/// Appends the contacts of `a` with the bodies of greater number.
fn contacts_of(grid: &SpatialGrid, a: usize, found: &mut Vec<Collision>)
    requires
        grid.wf(),
        old(found)@.no_duplicates(),
        forall|k: int| 0 <= k < old(found)@.len() ==> (#[trigger] old(found)@[k]).node1 != a,
    ensures
        final(found)@.no_duplicates(),
        forall|c: Collision| #[trigger]
            final(found)@.contains(c) <==> old(found)@.contains(c) || (c.node1 == a && a < c.node2
                && in_contact(grid, a, c.node2) && c == contact_of(grid, a, c.node2)),
{
    let near = grid.neighbours(a);
    let rect_a = grid.get_node_rect(a);
    let mut m: usize = 0;
    while m < near.len()
        invariant
            grid.wf(),
            m <= near@.len(),
            near@.no_duplicates(),
            forall|j: usize| near@.contains(j) <==> grid.share_cell(a, j),
            rect_a == (if grid.rects().contains_key(a) {
                Some(grid.rects()[a])
            } else {
                None
            }),
            found@.no_duplicates(),
            forall|k: int| 0 <= k < old(found)@.len() ==> (#[trigger] old(found)@[k]).node1 != a,
            forall|c: Collision| #[trigger]
                found@.contains(c) <==> old(found)@.contains(c) || (c.node1 == a && a < c.node2
                    && in_contact(grid, a, c.node2) && c == contact_of(grid, a, c.node2)
                    && near@.take(m as int).contains(c.node2)),
        decreases near@.len() - m,
    {
        let b: usize = near[m];
        let ghost before = found@;
        let ghost seen = near@.take(m as int);
        assert(near@.contains(b));
        assert(near@.take(m + 1) == seen.push(b));
        assert(!seen.contains(b));
        let mut pushed = false;
        if a < b {
            let rect_b = grid.get_node_rect(b);
            match (rect_a, rect_b) {
                (Some(box_a), Some(box_b)) => {
                    if box_a.intersects(&box_b) {
                        let p = penetration_axis(&box_a, &box_b);
                        found.push(
                            Collision {
                                node1: a,
                                node2: b,
                                normal: p.normal,
                                point: p.point,
                                correction: p.correction,
                            },
                        );
                        pushed = true;
                    }
                },
                _ => {},
            }
        }
        proof {
            let entry = contact_of(grid, a, b);
            assert(pushed <==> a < b && in_contact(grid, a, b));
            assert forall|c: Collision| #[trigger]
                found@.contains(c) <==> old(found)@.contains(c) || (c.node1 == a && a < c.node2
                    && in_contact(grid, a, c.node2) && c == contact_of(grid, a, c.node2)
                    && near@.take(m + 1).contains(c.node2)) by {
                vstd::seq_lib::lemma_seq_contains_after_push(seen, b, c.node2);
                if pushed {
                    vstd::seq_lib::lemma_seq_contains_after_push(before, entry, c);
                }
            }
            if pushed {
                assert(!before.contains(entry)) by {
                    if old(found)@.contains(entry) {
                        let k = choose|k: int|
                            0 <= k < old(found)@.len() && old(found)@[k] == entry;
                        assert(old(found)@[k].node1 != a);
                    }
                }
                assert(found@.no_duplicates()) by {
                    assert forall|i: int, j: int|
                        0 <= i < found@.len() && 0 <= j < found@.len() && i != j implies found@[i]
                        != found@[j] by {
                        if i < before.len() {
                            assert(before.contains(found@[i]));
                        }
                        if j < before.len() {
                            assert(before.contains(found@[j]));
                        }
                    }
                }
            }
        }
        m += 1;
    }
    proof {
        assert(near@.take(m as int) == near@);
    }
}

/// The broad phase: walks the bodies of the grid in order and, for each, the
/// bodies that share a cell with it, and lists every pair whose boxes overlap.
pub fn detect_collisions(grid: &SpatialGrid) -> (found: Vec<Collision>)
    requires
        grid.wf(),
    ensures
        lists_contacts(grid, found@),
{
    let ids = grid.nodes();
    let mut found: Vec<Collision> = Vec::new();
    let mut i: usize = 0;
    while i < ids.len()
        invariant
            grid.wf(),
            ids@ == grid.bodies(),
            i <= ids@.len(),
            found@.no_duplicates(),
            forall|c: Collision| #[trigger]
                found@.contains(c) <==> ids@.take(i as int).contains(c.node1) && c.node1 < c.node2
                    && in_contact(grid, c.node1, c.node2) && c == contact_of(
                    grid,
                    c.node1,
                    c.node2,
                ),
        decreases ids@.len() - i,
    {
        let a: usize = ids[i];
        let ghost before = found@;
        let ghost done = ids@.take(i as int);
        proof {
            assert(ids@.take(i + 1) == done.push(a));
            assert(!done.contains(a)) by {
                if done.contains(a) {
                    let p = choose|p: int| 0 <= p < done.len() && done[p] == a;
                    assert(ids@[p] == ids@[i as int]);
                }
            }
            assert forall|k: int| 0 <= k < before.len() implies (#[trigger] before[k]).node1
                != a by {
                assert(before.contains(before[k]));
            }
        }
        contacts_of(grid, a, &mut found);
        proof {
            assert forall|c: Collision| #[trigger]
                found@.contains(c) <==> ids@.take(i + 1).contains(c.node1) && c.node1 < c.node2
                    && in_contact(grid, c.node1, c.node2) && c == contact_of(
                    grid,
                    c.node1,
                    c.node2,
                ) by {
                vstd::seq_lib::lemma_seq_contains_after_push(done, a, c.node1);
                assert(before.contains(c) <==> done.contains(c.node1) && c.node1 < c.node2
                    && in_contact(grid, c.node1, c.node2) && c == contact_of(
                    grid,
                    c.node1,
                    c.node2,
                ));
            }
        }
        i += 1;
    }
    proof {
        assert(ids@.take(i as int) == ids@);
        assert forall|c: Collision| #[trigger]
            found@.contains(c) <==> c.node1 < c.node2 && in_contact(grid, c.node1, c.node2) && c
                == contact_of(grid, c.node1, c.node2) by {
            if c.node1 < c.node2 && in_contact(grid, c.node1, c.node2) {
                assert(grid.bodies().contains(c.node1));
            }
        }
    }
    found
}

/// Grid completeness: two bodies of a grid whose boxes hold a point each and
/// overlap are found by the broad phase, wherever they lie and however wide the
/// cells are.
pub proof fn lemma_broad_phase_complete(grid: &SpatialGrid, found: Seq<Collision>, a: usize, b: usize)
    requires
        grid.wf(),
        lists_contacts(grid, found),
        a != b,
        grid.rects().contains_key(a),
        grid.rects().contains_key(b),
        grid.rects()[a].is_valid(),
        grid.rects()[b].is_valid(),
        grid.rects()[a].overlaps(&grid.rects()[b]),
    ensures
        exists|k: int| 0 <= k < found.len() && (#[trigger] found[k]).names(a, b),
{
    lemma_overlap_shares_cell(grid.rects()[a], grid.rects()[b], grid.size());
    let c = shared_cell(grid.rects()[a], grid.rects()[b], grid.size());
    assert(grid.rects()[a].covers(c, grid.size()) && grid.rects()[b].covers(c, grid.size()));
    assert(in_contact(grid, a, b));
    lemma_in_contact_symmetric(grid, a, b);
    let entry = if a < b {
        contact_of(grid, a, b)
    } else {
        contact_of(grid, b, a)
    };
    assert(found.contains(entry));
    let k = choose|k: int| 0 <= k < found.len() && found[k] == entry;
    assert(found[k].names(a, b));
}

/// The most sub-steps that one update takes; time that is left after them is dropped.
pub const MAX_ITERATIONS: u32 = 10;

/// What is done with a pair of bodies in contact during a sub-step.
#[derive(Debug, Clone, Copy, PartialEq, Eq, Structural)]
pub enum PairAction {
    /// Nothing: both bodies are fixed.
    Skip,
    /// The pair is resolved at once, without using up time.
    Resolve,
    /// The pair is fast: its time of impact is to be computed and offered.
    Sweep,
}

/// How a sub-step begins.
#[derive(Debug, Clone, Copy, PartialEq, Eq, Structural)]
pub enum Step {
    /// The update is over: no time is left, or the cap on sub-steps is reached.
    Stop,
    /// Nothing is in contact: every body is integrated for the time that is left,
    /// and the update is over.
    Integrate,
    /// Bodies are in contact: each pair is to be classified.
    Examine,
}

/// How a sub-step ends.
#[derive(Debug, Clone, Copy, PartialEq, Eq, Structural)]
pub enum Outcome {
    /// Every body is integrated for the time that is left, and the update is over.
    Integrate,
    /// Every body is advanced by `step`, which is the time of impact `toi` or
    /// the least step where that is longer; then the pair is resolved, and
    /// another sub-step follows.
    Advance { collision: Collision, toi: Fraction, step: Fraction },
}

/// The least time by which a sub-step advances the bodies, so that every
/// sub-step uses up time: a ten-thousandth of the unit of time.
pub open spec fn least_step() -> Fraction {
    Fraction { num: 1, den: 10000 }
}

/// Whether the speed of `velocity` is below `limit`.
pub open spec fn is_slower_than(velocity: Point3, limit: int) -> bool {
    velocity.x * velocity.x + velocity.y * velocity.y + velocity.z * velocity.z < limit * limit
}

/// Says whether a relative velocity is below the speed under which a pair in
/// contact is resolved at once.
pub fn slower_than(velocity: Point3, limit: i64) -> (slow: bool)
    requires
        velocity.in_range(),
        0 <= limit <= crate::collision::COORD_LIMIT,
    ensures
        slow == is_slower_than(velocity, limit as int),
{
    proof {
        crate::collision::lemma_product_bound(velocity.x as int, velocity.x as int);
        crate::collision::lemma_product_bound(velocity.y as int, velocity.y as int);
        crate::collision::lemma_product_bound(velocity.z as int, velocity.z as int);
        crate::collision::lemma_product_bound(limit as int, limit as int);
    }
    let x: i128 = velocity.x as i128;
    let y: i128 = velocity.y as i128;
    let z: i128 = velocity.z as i128;
    let l: i128 = limit as i128;
    x * x + y * y + z * z < l * l
}

/// What is done with a pair in contact whose bodies are of the kinds `kind1` and
/// `kind2`: `resolved` says whether the pair was resolved earlier in this update,
/// `slow` whether the bodies' relative speed is below the threshold.
pub open spec fn action_for(
    kind1: PhycisObjectType,
    kind2: PhycisObjectType,
    resolved: bool,
    slow: bool,
) -> PairAction {
    if kind1 is Static && kind2 is Static {
        PairAction::Skip
    } else if resolved || slow {
        PairAction::Resolve
    } else {
        PairAction::Sweep
    }
}

/// What is done with a pair in contact of which a body may be missing from the
/// store: `None` stands for a body that is gone, and a pair with such a body
/// is skipped.
pub open spec fn action_for_present(
    kind1: Option<PhycisObjectType>,
    kind2: Option<PhycisObjectType>,
    resolved: bool,
    slow: bool,
) -> PairAction {
    match (kind1, kind2) {
        (Some(first), Some(second)) => action_for(first, second, resolved, slow),
        _ => PairAction::Skip,
    }
}

/// The contacts of the body `id` among the contacts given out, in their order.
pub open spec fn contacts_for(given: Seq<(usize, ContactInfo)>, id: usize) -> Seq<ContactInfo>
    decreases given.len(),
{
    if given.len() == 0 {
        Seq::empty()
    } else if given.last().0 == id {
        contacts_for(given.drop_last(), id).push(given.last().1)
    } else {
        contacts_for(given.drop_last(), id)
    }
}

/// The contacts that a resolution gives out: that of the first body, if it is
/// moved, then that of the second, if it is.
pub open spec fn contacts_given(collision: Collision, plan: Resolution) -> Seq<
    (usize, ContactInfo),
> {
    let first = match plan.first {
        Some(contact) => seq![(collision.node1, contact)],
        None => Seq::empty(),
    };
    let second = match plan.second {
        Some(contact) => seq![(collision.node2, contact)],
        None => Seq::empty(),
    };
    first + second
}

/// Which of the two bodies of a pair a resolution moves: `immovable1` and
/// `immovable2` say whether the body has no mass.
pub open spec fn moved_by_resolution(
    kind1: PhycisObjectType,
    kind2: PhycisObjectType,
    immovable1: bool,
    immovable2: bool,
) -> (bool, bool) {
    if immovable1 && immovable2 {
        (false, false)
    } else {
        (kind1 is Dynamic, kind2 is Dynamic)
    }
}

/// A contact of a body: where it touches another body, and along which normal.
#[derive(Debug, Clone, Copy, PartialEq, Eq, Structural)]
pub struct ContactInfo {
    pub normal: Point3,
    pub point: Point3,
    pub node_id: usize,
}

/// What the resolution of a collision does to its two bodies: each body that
/// it moves takes the impulse and its share of the correction, and is given
/// the contact named here; a body with `None` is left alone.
#[derive(Debug, Clone, Copy, PartialEq, Eq, Structural)]
pub struct Resolution {
    pub first: Option<ContactInfo>,
    pub second: Option<ContactInfo>,
}

/// The vector that points the other way.
pub open spec fn negated(v: Point3) -> Point3 {
    Point3 { x: (-v.x) as i64, y: (-v.y) as i64, z: (-v.z) as i64 }
}

/// The resolution of `collision` between bodies of the kinds `kind1` and
/// `kind2`: the first body is given the normal of the collision, the second the
/// opposite one, and each the other as the body it touches.
pub open spec fn resolution_of(
    collision: Collision,
    kind1: PhycisObjectType,
    kind2: PhycisObjectType,
    immovable1: bool,
    immovable2: bool,
) -> Resolution {
    let moved = moved_by_resolution(kind1, kind2, immovable1, immovable2);
    Resolution {
        first: if moved.0 {
            Some(
                ContactInfo {
                    normal: collision.normal,
                    point: collision.point,
                    node_id: collision.node2,
                },
            )
        } else {
            None
        },
        second: if moved.1 {
            Some(
                ContactInfo {
                    normal: negated(collision.normal),
                    point: collision.point,
                    node_id: collision.node1,
                },
            )
        } else {
            None
        },
    }
}

/// Says which bodies of a pair take the impulse, the correction and a contact
/// when the pair is resolved: the dynamic ones, and neither where both have no
/// mass.
pub fn resolution(
    collision: &Collision,
    kind1: PhycisObjectType,
    kind2: PhycisObjectType,
    immovable1: bool,
    immovable2: bool,
) -> (plan: Resolution)
    requires
        collision.normal.in_range(),
    ensures
        plan == resolution_of(*collision, kind1, kind2, immovable1, immovable2),
{
    if immovable1 && immovable2 {
        return Resolution { first: None, second: None };
    }
    let first = if kind1 == PhycisObjectType::Dynamic {
        Some(
            ContactInfo { normal: collision.normal, point: collision.point, node_id: collision.node2 },
        )
    } else {
        None
    };
    let second = if kind2 == PhycisObjectType::Dynamic {
        Some(
            ContactInfo {
                normal: Point3 {
                    x: -collision.normal.x,
                    y: -collision.normal.y,
                    z: -collision.normal.z,
                },
                point: collision.point,
                node_id: collision.node1,
            },
        )
    } else {
        None
    };
    Resolution { first, second }
}

/// Whether a body of this kind is integrated: a dynamic body that is not marked
/// stationary is, a fixed one never.
pub open spec fn integrates_spec(kind: PhycisObjectType, stationary: bool) -> bool {
    kind is Dynamic && !stationary
}

#[verifier::when_used_as_spec(integrates_spec)]
pub fn integrates(kind: PhycisObjectType, stationary: bool) -> (moves: bool)
    ensures
        moves == integrates_spec(kind, stationary),
{
    kind == PhycisObjectType::Dynamic && !stationary
}

/// Static pairs are inert: a pair of two fixed bodies is skipped, whatever else
/// holds of it, and a resolution leaves every fixed body alone: it takes no
/// impulse, no correction and no contact.
pub proof fn lemma_static_pairs_inert(
    collision: Collision,
    kind1: PhycisObjectType,
    kind2: PhycisObjectType,
    resolved: bool,
    slow: bool,
    immovable1: bool,
    immovable2: bool,
)
    ensures
        kind1 is Static && kind2 is Static ==> action_for(kind1, kind2, resolved, slow)
            == PairAction::Skip,
        kind1 is Static ==> resolution_of(collision, kind1, kind2, immovable1, immovable2).first
            is None,
        kind2 is Static ==> resolution_of(collision, kind1, kind2, immovable1, immovable2).second
            is None,
        kind1 is Static && kind2 is Static ==> !integrates_spec(kind1, false) && !integrates_spec(
            kind2,
            false,
        ),
{
}

fn holds(list: &Vec<(usize, usize)>, pair: (usize, usize)) -> (found: bool)
    ensures
        found == list@.contains(pair),
{
    let mut i: usize = 0;
    while i < list.len()
        invariant
            i <= list@.len(),
            forall|k: int| 0 <= k < i ==> list@[k] != pair,
        decreases list@.len() - i,
    {
        if list[i].0 == pair.0 && list[i].1 == pair.1 {
            return true;
        }
        i += 1;
    }
    false
}

/// Whether one of the collisions is between the two bodies of `pair`, in
/// either order.
pub open spec fn involves(current: Seq<Collision>, pair: (usize, usize)) -> bool {
    exists|k: int| 0 <= k < current.len() && (#[trigger] current[k]).names(pair.0, pair.1)
}

fn is_involved(current: &Vec<Collision>, pair: (usize, usize)) -> (found: bool)
    ensures
        found == involves(current@, pair),
{
    let mut i: usize = 0;
    while i < current.len()
        invariant
            i <= current@.len(),
            forall|k: int| 0 <= k < i ==> !(#[trigger] current@[k]).names(pair.0, pair.1),
        decreases current@.len() - i,
    {
        if (current[i].node1 == pair.0 && current[i].node2 == pair.1) || (current[i].node1
            == pair.1 && current[i].node2 == pair.0) {
            return true;
        }
        i += 1;
    }
    false
}

/// The pairs of `list` that are still among the collisions of `current`, in
/// the order of `list`.
pub open spec fn still_current(list: Seq<(usize, usize)>, current: Seq<Collision>) -> Seq<
    (usize, usize),
>
    decreases list.len(),
{
    if list.len() == 0 {
        Seq::empty()
    } else if involves(current, list.last()) {
        still_current(list.drop_last(), current).push(list.last())
    } else {
        still_current(list.drop_last(), current)
    }
}

/// What is left holds only pairs of the list, and only current ones.
pub proof fn lemma_still_current(list: Seq<(usize, usize)>, current: Seq<Collision>)
    ensures
        forall|pair: (usize, usize)| #[trigger]
            still_current(list, current).contains(pair) <==> list.contains(pair) && involves(
                current,
                pair,
            ),
        list.no_duplicates() ==> still_current(list, current).no_duplicates(),
    decreases list.len(),
{
    if list.len() > 0 {
        let rest = list.drop_last();
        let kept = still_current(rest, current);
        lemma_still_current(rest, current);
        assert(list =~= rest.push(list.last()));
        assert forall|pair: (usize, usize)| #[trigger]
            still_current(list, current).contains(pair) <==> list.contains(pair) && involves(
                current,
                pair,
            ) by {
            vstd::seq_lib::lemma_seq_contains_after_push(rest, list.last(), pair);
            if involves(current, list.last()) {
                vstd::seq_lib::lemma_seq_contains_after_push(kept, list.last(), pair);
            }
        }
        if list.no_duplicates() {
            assert(rest.no_duplicates());
            assert(!rest.contains(list.last())) by {
                if rest.contains(list.last()) {
                    let k = choose|k: int| 0 <= k < rest.len() && rest[k] == list.last();
                    assert(list[k] == list[list.len() - 1]);
                }
            }
            if involves(current, list.last()) {
                let out = kept.push(list.last());
                assert forall|i: int, j: int|
                    0 <= i < out.len() && 0 <= j < out.len() && i != j implies out[i]
                    != out[j] by {
                    if i < kept.len() {
                        assert(kept.contains(out[i]));
                    }
                    if j < kept.len() {
                        assert(kept.contains(out[j]));
                    }
                }
            }
        }
    } else {
        assert forall|pair: (usize, usize)| !(#[trigger] still_current(list, current).contains(
            pair,
        )) by {}
    }
}

fn retain_current(list: &Vec<(usize, usize)>, current: &Vec<Collision>) -> (kept: Vec<
    (usize, usize),
>)
    ensures
        kept@ == still_current(list@, current@),
{
    let mut kept: Vec<(usize, usize)> = Vec::new();
    let mut i: usize = 0;
    while i < list.len()
        invariant
            i <= list@.len(),
            kept@ == still_current(list@.take(i as int), current@),
        decreases list@.len() - i,
    {
        proof {
            assert(list@.take(i + 1).drop_last() == list@.take(i as int));
        }
        if is_involved(current, list[i]) {
            kept.push(list[i]);
        }
        i += 1;
    }
    proof {
        assert(list@.take(i as int) == list@);
    }
    kept
}

/// The simulation of one scene: the contacts of the current sub-step, the
/// pairs resolved recently, and the progress of the update under way.
#[derive(Debug, Clone)]
pub struct PhysicsSystem {
    collision_cache: Vec<(usize, usize)>,
    broad_phase_collisions: Vec<Collision>,
    iterations: u32,
    fast: bool,
    earliest: Option<(Fraction, Collision)>,
    time_left: Fraction,
    body_contacts: Vec<(usize, ContactInfo)>,
}

impl PhysicsSystem {
    /// The contacts given to the bodies in the update under way, each with the
    /// body that was given it, in the order in which they were given.
    pub closed spec fn touching(&self) -> Seq<(usize, ContactInfo)> {
        self.body_contacts@
    }

    /// The pairs that were resolved at a time of impact and have stayed in
    /// contact since, oldest first.
    pub closed spec fn cache(&self) -> Seq<(usize, usize)> {
        self.collision_cache@
    }

    /// The contacts that the last sub-step found.
    pub closed spec fn contacts(&self) -> Seq<Collision> {
        self.broad_phase_collisions@
    }

    /// The number of sub-steps that the update under way has begun.
    pub closed spec fn iterations(&self) -> int {
        self.iterations as int
    }

    /// Whether the sub-step under way has met a fast pair.
    pub closed spec fn fast(&self) -> bool {
        self.fast
    }

    /// The earliest impact offered in the sub-step under way, with its time.
    pub closed spec fn earliest(&self) -> Option<(Fraction, Collision)> {
        self.earliest
    }

    /// The time that was left when the sub-step under way began.
    pub closed spec fn time_left(&self) -> Fraction {
        self.time_left
    }

    /// The time that an impact must come before to count: the time left in the
    /// update, until an impact is offered, and the time of the earliest one after.
    pub open spec fn horizon(&self) -> Fraction {
        match self.earliest() {
            Some((toi, _)) => toi,
            None => self.time_left(),
        }
    }

    /// What holds of every system: no pair is cached twice, an update has begun
    /// no more sub-steps than the cap allows, and the times it holds can be
    /// compared.
    pub open spec fn wf(&self) -> bool {
        &&& self.cache().no_duplicates()
        &&& 0 <= self.iterations() <= MAX_ITERATIONS
        &&& self.horizon().is_valid()
    }

    pub fn new() -> (system: Self)
        ensures
            system.wf(),
            system.cache() == Seq::<(usize, usize)>::empty(),
            system.contacts() == Seq::<Collision>::empty(),
            system.iterations() == 0,
            !system.fast(),
            system.earliest() is None,
            system.touching() == Seq::<(usize, ContactInfo)>::empty(),
    {
        PhysicsSystem {
            collision_cache: Vec::new(),
            broad_phase_collisions: Vec::new(),
            iterations: 0,
            fast: false,
            earliest: None,
            time_left: Fraction { num: 0, den: 1 },
            body_contacts: Vec::new(),
        }
    }

    /// Begins an update: no sub-step has been taken yet, and no body has a
    /// contact: the contacts of the update before are forgotten.
    pub fn begin_update(&mut self)
        requires
            old(self).wf(),
        ensures
            final(self).wf(),
            final(self).iterations() == 0,
            final(self).cache() == old(self).cache(),
            final(self).contacts() == old(self).contacts(),
            final(self).touching() == Seq::<(usize, ContactInfo)>::empty(),
    {
        self.iterations = 0;
        self.body_contacts.clear();
    }

    /// Begins a sub-step with `time_left` of the update to go. Without time, or
    /// with the cap on sub-steps reached, the update stops and nothing changes.
    /// Otherwise the contacts of `grid` are found afresh.
    pub fn begin_iteration(&mut self, grid: &SpatialGrid, time_left: Fraction) -> (step: Step)
        requires
            old(self).wf(),
            grid.wf(),
            time_left.is_valid(),
        ensures
            final(self).wf(),
            final(self).cache() == old(self).cache(),
            final(self).touching() == old(self).touching(),
            time_left.num <= 0 || old(self).iterations() >= MAX_ITERATIONS ==> step == Step::Stop
                && *final(self) == *old(self),
            time_left.num > 0 && old(self).iterations() < MAX_ITERATIONS ==> {
                &&& final(self).iterations() == old(self).iterations() + 1
                &&& lists_contacts(grid, final(self).contacts())
                &&& !final(self).fast()
                &&& final(self).earliest() is None
                &&& final(self).time_left() == time_left
                &&& step == (if final(self).contacts().len() == 0 {
                    Step::Integrate
                } else {
                    Step::Examine
                })
            },
    {
        if time_left.num <= 0 || self.iterations >= MAX_ITERATIONS {
            return Step::Stop;
        }
        self.iterations += 1;
        self.broad_phase_collisions = detect_collisions(grid);
        self.fast = false;
        self.earliest = None;
        self.time_left = time_left;
        if self.broad_phase_collisions.len() == 0 {
            Step::Integrate
        } else {
            Step::Examine
        }
    }

    /// The contacts that the last sub-step found.
    pub fn collisions(&self) -> (found: &Vec<Collision>)
        ensures
            found@ == self.contacts(),
    {
        &self.broad_phase_collisions
    }

    /// Says what is done with a pair in contact, from the kinds of its bodies
    /// and from whether their relative speed is below the threshold.
    pub fn classify(
        &self,
        collision: &Collision,
        kind1: PhycisObjectType,
        kind2: PhycisObjectType,
        slow: bool,
    ) -> (action: PairAction)
        ensures
            action == action_for(kind1, kind2, self.cache().contains(collision.pair()), slow),
    {
        if kind1 == PhycisObjectType::Static && kind2 == PhycisObjectType::Static {
            PairAction::Skip
        } else if holds(&self.collision_cache, (collision.node1, collision.node2)) || slow {
            PairAction::Resolve
        } else {
            PairAction::Sweep
        }
    }

    /// Says what is done with a pair in contact of which a body may have left
    /// the store since the contacts were found: `None` stands for a body that is
    /// gone, and such a pair is skipped.
    pub fn classify_pair(
        &self,
        collision: &Collision,
        kind1: Option<PhycisObjectType>,
        kind2: Option<PhycisObjectType>,
        slow: bool,
    ) -> (action: PairAction)
        ensures
            action == action_for_present(
                kind1,
                kind2,
                self.cache().contains(collision.pair()),
                slow,
            ),
    {
        match (kind1, kind2) {
            (Some(first), Some(second)) => self.classify(collision, first, second, slow),
            _ => PairAction::Skip,
        }
    }

    /// Resolves a pair: says which of its bodies take the impulse and the
    /// correction, and gives each of them its contact, behind the contacts
    /// given before.
    pub fn resolve(
        &mut self,
        collision: &Collision,
        kind1: PhycisObjectType,
        kind2: PhycisObjectType,
        immovable1: bool,
        immovable2: bool,
    ) -> (plan: Resolution)
        requires
            old(self).wf(),
            collision.normal.in_range(),
        ensures
            final(self).wf(),
            plan == resolution_of(*collision, kind1, kind2, immovable1, immovable2),
            final(self).touching() == old(self).touching() + contacts_given(*collision, plan),
            final(self).cache() == old(self).cache(),
            final(self).contacts() == old(self).contacts(),
            final(self).iterations() == old(self).iterations(),
            final(self).fast() == old(self).fast(),
            final(self).earliest() == old(self).earliest(),
            final(self).time_left() == old(self).time_left(),
    {
        let plan = resolution(collision, kind1, kind2, immovable1, immovable2);
        let ghost before = self.body_contacts@;
        match plan.first {
            Some(contact) => {
                self.body_contacts.push((collision.node1, contact));
            },
            None => {},
        }
        match plan.second {
            Some(contact) => {
                self.body_contacts.push((collision.node2, contact));
            },
            None => {},
        }
        proof {
            assert(self.body_contacts@ =~= before + contacts_given(*collision, plan));
        }
        plan
    }

    /// The contacts that the body `id` has been given in the update under way.
    pub fn contacts_of(&self, id: usize) -> (out: Vec<ContactInfo>)
        ensures
            out@ == contacts_for(self.touching(), id),
    {
        let mut out: Vec<ContactInfo> = Vec::new();
        let mut i: usize = 0;
        while i < self.body_contacts.len()
            invariant
                i <= self.body_contacts@.len(),
                out@ == contacts_for(self.body_contacts@.take(i as int), id),
            decreases self.body_contacts@.len() - i,
        {
            proof {
                assert(self.body_contacts@.take(i + 1).drop_last() == self.body_contacts@.take(
                    i as int,
                ));
            }
            if self.body_contacts[i].0 == id {
                out.push(self.body_contacts[i].1);
            }
            i += 1;
        }
        proof {
            assert(self.body_contacts@.take(i as int) == self.body_contacts@);
        }
        out
    }

    /// Takes note of a fast pair and of its time of impact, if it has one within
    /// the time left: the sub-step is fast from now on, and the impact becomes the
    /// earliest where it comes before the horizon.
    pub fn sweep(&mut self, collision: Collision, toi: Option<Fraction>)
        requires
            old(self).wf(),
            toi matches Some(t) ==> t.is_valid(),
        ensures
            final(self).wf(),
            final(self).fast(),
            final(self).touching() == old(self).touching(),
            final(self).cache() == old(self).cache(),
            final(self).contacts() == old(self).contacts(),
            final(self).iterations() == old(self).iterations(),
            final(self).time_left() == old(self).time_left(),
            final(self).earliest() == (match toi {
                Some(t) if t.lt(&old(self).horizon()) => Some((t, collision)),
                _ => old(self).earliest(),
            }),
    {
        self.fast = true;
        match toi {
            Some(t) => {
                let horizon: Fraction = match self.earliest {
                    Some((best, _)) => best,
                    None => self.time_left,
                };
                if t.is_less(&horizon) {
                    self.earliest = Some((t, collision));
                }
            },
            None => {},
        }
    }

    /// Ends a sub-step. The cache keeps only the pairs that are still in contact.
    /// Where the sub-step met a fast pair and an impact was offered, the earliest
    /// one is remembered in the cache and the bodies are to be advanced to it;
    /// otherwise the bodies are integrated for the time left and the update ends.
    pub fn end_iteration(&mut self) -> (outcome: Outcome)
        requires
            old(self).wf(),
        ensures
            final(self).wf(),
            final(self).contacts() == old(self).contacts(),
            final(self).iterations() == old(self).iterations(),
            final(self).touching() == old(self).touching(),
            outcome == (match old(self).earliest() {
                Some((toi, collision)) if old(self).fast() => Outcome::Advance {
                    collision,
                    toi,
                    step: toi.later(&least_step()),
                },
                _ => Outcome::Integrate,
            }),
            final(self).cache() == ({
                let kept = still_current(old(self).cache(), old(self).contacts());
                match outcome {
                    Outcome::Advance { collision, toi, step } if !kept.contains(
                        collision.pair(),
                    ) => kept.push(collision.pair()),
                    _ => kept,
                }
            }),
    {
        let kept = retain_current(&self.collision_cache, &self.broad_phase_collisions);
        proof {
            lemma_still_current(self.collision_cache@, self.broad_phase_collisions@);
        }
        self.collision_cache = kept;
        if !self.fast {
            return Outcome::Integrate;
        }
        match self.earliest {
            Some((toi, collision)) => {
                let pair = (collision.node1, collision.node2);
                if !holds(&self.collision_cache, pair) {
                    let ghost before = self.collision_cache@;
                    self.collision_cache.push(pair);
                    proof {
                        assert forall|i: int, j: int|
                            0 <= i < self.collision_cache@.len() && 0 <= j
                                < self.collision_cache@.len() && i
                                != j implies self.collision_cache@[i]
                            != self.collision_cache@[j] by {
                            if i < before.len() {
                                assert(before.contains(self.collision_cache@[i]));
                            }
                            if j < before.len() {
                                assert(before.contains(self.collision_cache@[j]));
                            }
                        }
                    }
                }
                let floor = Fraction { num: 1, den: 10000 };
                Outcome::Advance { collision, toi, step: toi.later_of(&floor) }
            },
            None => Outcome::Integrate,
        }
    }
}

} // verus!
