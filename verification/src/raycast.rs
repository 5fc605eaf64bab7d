use crate::aabb::Point3;
use crate::aabb::AABB;
use crate::collision::entry_of;
use crate::collision::lemma_le_transitive;
use crate::collision::lemma_ray_hit_valid;
use crate::collision::ray_aabb;
use crate::collision::ray_hit;
use crate::collision::Fraction;
use crate::spatial_grid::SpatialGrid;
use vstd::prelude::*;

verus! {

/// A body that a ray enters, with the distance from the ray's origin at which
/// it does, as a fraction of the ray's length.
#[derive(Debug, Clone, Copy, PartialEq, Eq, Structural)]
pub struct RayHit {
    pub distance: Fraction,
    pub node: usize,
}

/// Whether the distance of every hit is a fraction that can be compared.
pub open spec fn comparable(hits: Seq<RayHit>) -> bool {
    forall|i: int| 0 <= i < hits.len() ==> (#[trigger] hits[i]).distance.is_valid()
}

/// `sorted` with `hit` put behind the last entry that is not farther than it.
pub open spec fn insert_hit(sorted: Seq<RayHit>, hit: RayHit) -> Seq<RayHit>
    decreases sorted.len(),
{
    if sorted.len() == 0 {
        seq![hit]
    } else if sorted.last().distance.le(&hit.distance) {
        sorted.push(hit)
    } else {
        insert_hit(sorted.drop_last(), hit).push(sorted.last())
    }
}

/// The hits by ascending distance; hits at the same distance keep the order in
/// which they were given.
pub open spec fn sort_hits(hits: Seq<RayHit>) -> Seq<RayHit>
    decreases hits.len(),
{
    if hits.len() == 0 {
        Seq::empty()
    } else {
        insert_hit(sort_hits(hits.drop_last()), hits.last())
    }
}

/// Whether no hit of the list is nearer than one before it.
pub open spec fn ascending(hits: Seq<RayHit>) -> bool {
    forall|i: int, j: int| 0 <= i <= j < hits.len() ==> hits[i].distance.le(&hits[j].distance)
}

/// The hits that are not on `origin` itself, in the order given.
pub open spec fn without_origin(hits: Seq<RayHit>, origin: usize) -> Seq<RayHit>
    decreases hits.len(),
{
    if hits.len() == 0 {
        Seq::empty()
    } else if hits.last().node != origin {
        without_origin(hits.drop_last(), origin).push(hits.last())
    } else {
        without_origin(hits.drop_last(), origin)
    }
}

/// The bodies of a list of hits, in its order.
pub open spec fn nodes_of(hits: Seq<RayHit>) -> Seq<usize> {
    hits.map_values(|hit: RayHit| hit.node)
}

/// Putting a hit into the list is the same as inserting it at the place behind
/// which every entry is farther and before which the last is not.
pub proof fn lemma_insert_hit_at(sorted: Seq<RayHit>, hit: RayHit, at: int)
    requires
        0 <= at <= sorted.len(),
        forall|k: int| at <= k < sorted.len() ==> hit.distance.lt(&sorted[k].distance),
        at > 0 ==> sorted[at - 1].distance.le(&hit.distance),
    ensures
        insert_hit(sorted, hit) == sorted.insert(at, hit),
    decreases sorted.len(),
{
    if sorted.len() == 0 {
        assert(sorted.insert(at, hit) =~= seq![hit]);
    } else if sorted.last().distance.le(&hit.distance) {
        assert(at == sorted.len());
        assert(sorted.insert(at, hit) =~= sorted.push(hit));
    } else {
        lemma_insert_hit_at(sorted.drop_last(), hit, at);
        assert(sorted.drop_last().insert(at, hit).push(sorted.last()) =~= sorted.insert(at, hit));
    }
}

/// Putting a hit into an ascending list leaves it ascending, one longer, and
/// with the same hits and the new one.
pub proof fn lemma_insert_hit_ascending(sorted: Seq<RayHit>, hit: RayHit)
    requires
        ascending(sorted),
        comparable(sorted),
        hit.distance.is_valid(),
    ensures
        ascending(insert_hit(sorted, hit)),
        comparable(insert_hit(sorted, hit)),
        insert_hit(sorted, hit).len() == sorted.len() + 1,
        insert_hit(sorted, hit).to_multiset() == sorted.to_multiset().insert(hit),
    decreases sorted.len(),
{
    broadcast use vstd::seq_lib::group_to_multiset_ensures;

    if sorted.len() == 0 {
        assert(seq![hit] =~= Seq::<RayHit>::empty().push(hit));
        assert(sorted =~= Seq::<RayHit>::empty());
    } else if sorted.last().distance.le(&hit.distance) {
        let out = sorted.push(hit);
        assert forall|i: int, j: int| 0 <= i <= j < out.len() implies out[i].distance.le(
            &out[j].distance,
        ) by {
            if j == sorted.len() && i < j {
                assert(sorted[i].distance.le(&sorted[sorted.len() - 1].distance));
                lemma_le_transitive(sorted[i].distance, sorted.last().distance, hit.distance);
            }
        }
    } else {
        let rest = sorted.drop_last();
        assert(ascending(rest));
        assert(comparable(rest));
        lemma_insert_hit_ascending(rest, hit);
        let placed = insert_hit(rest, hit);
        let out = placed.push(sorted.last());
        assert(sorted =~= rest.push(sorted.last()));
        assert forall|i: int, j: int| 0 <= i <= j < out.len() implies out[i].distance.le(
            &out[j].distance,
        ) by {
            if j == out.len() - 1 && i < j {
                assert(placed.to_multiset().count(placed[i]) > 0);
                if placed[i] != hit {
                    assert(rest.to_multiset().count(placed[i]) > 0);
                    assert(rest.contains(placed[i]));
                    let k = choose|k: int| 0 <= k < rest.len() && rest[k] == placed[i];
                    assert(sorted[k].distance.le(&sorted[sorted.len() - 1].distance));
                }
            }
        }
        assert(out.to_multiset() =~= sorted.to_multiset().insert(hit));
    }
}

/// Ray-cast ordering: the sorted hits are in ascending order of distance and are
/// the hits that were given, each as often as it was given.
pub proof fn lemma_sort_hits_ascending(hits: Seq<RayHit>)
    requires
        comparable(hits),
    ensures
        ascending(sort_hits(hits)),
        comparable(sort_hits(hits)),
        sort_hits(hits).len() == hits.len(),
        sort_hits(hits).to_multiset() == hits.to_multiset(),
    decreases hits.len(),
{
    broadcast use vstd::seq_lib::group_to_multiset_ensures;

    if hits.len() == 0 {
        assert(hits =~= Seq::<RayHit>::empty());
    } else {
        assert(comparable(hits.drop_last()));
        lemma_sort_hits_ascending(hits.drop_last());
        lemma_insert_hit_ascending(sort_hits(hits.drop_last()), hits.last());
        assert(hits =~= hits.drop_last().push(hits.last()));
    }
}

/// Leaving the origin out keeps the distances comparable.
pub proof fn lemma_without_origin_comparable(hits: Seq<RayHit>, origin: usize)
    requires
        comparable(hits),
    ensures
        comparable(without_origin(hits, origin)),
        forall|i: int|
            0 <= i < without_origin(hits, origin).len() ==> (#[trigger] without_origin(
                hits,
                origin,
            )[i]).node != origin,
    decreases hits.len(),
{
    if hits.len() > 0 {
        assert(comparable(hits.drop_last()));
        lemma_without_origin_comparable(hits.drop_last(), origin);
    }
}

/// Sorts the hits by ascending distance, keeping the given order among hits at
/// the same distance.
pub fn sort_by_distance(hits: &Vec<RayHit>) -> (sorted: Vec<RayHit>)
    requires
        comparable(hits@),
    ensures
        sorted@ == sort_hits(hits@),
        ascending(sorted@),
        sorted@.to_multiset() == hits@.to_multiset(),
{
    let mut sorted: Vec<RayHit> = Vec::new();
    let mut i: usize = 0;
    while i < hits.len()
        invariant
            i <= hits@.len(),
            comparable(hits@),
            comparable(sorted@),
            sorted@ == sort_hits(hits@.take(i as int)),
        decreases hits@.len() - i,
    {
        let hit: RayHit = hits[i];
        let mut at: usize = sorted.len();
        while at > 0 && hit.distance.is_less(&sorted[at - 1].distance)
            invariant
                at <= sorted@.len(),
                comparable(sorted@),
                hit.distance.is_valid(),
                forall|k: int| at <= k < sorted@.len() ==> hit.distance.lt(&sorted@[k].distance),
            decreases at,
        {
            at -= 1;
        }
        proof {
            lemma_insert_hit_at(sorted@, hit, at as int);
            assert(hits@.take(i + 1).drop_last() == hits@.take(i as int));
            assert(comparable(hits@.take(i as int)));
            lemma_sort_hits_ascending(hits@.take(i as int));
            lemma_insert_hit_ascending(sorted@, hit);
        }
        sorted.insert(at, hit);
        i += 1;
    }
    proof {
        assert(hits@.take(i as int) == hits@);
        lemma_sort_hits_ascending(hits@);
    }
    sorted
}

/// The hits of the segment from `start` to `end` on the bodies of the list, in
/// the order of the list: a body is hit where it has a box among `rects` and
/// the segment meets the box.
pub open spec fn hits_among(
    rects: Map<usize, AABB>,
    candidates: Seq<usize>,
    start: Point3,
    end: Point3,
) -> Seq<RayHit>
    decreases candidates.len(),
{
    if candidates.len() == 0 {
        Seq::empty()
    } else {
        let rest = hits_among(rects, candidates.drop_last(), start, end);
        let node = candidates.last();
        if rects.contains_key(node) && ray_hit(rects[node], start, end) is Some {
            rest.push(RayHit { distance: entry_of(ray_hit(rects[node], start, end)), node })
        } else {
            rest
        }
    }
}

/// Tests the segment from `start` to `end` against the box of each body of the
/// list and collects the hits.
pub fn collect_hits(grid: &SpatialGrid, candidates: &Vec<usize>, start: Point3, end: Point3) -> (hits:
    Vec<RayHit>)
    requires
        grid.wf(),
        start.in_range(),
        end.in_range(),
    ensures
        hits@ == hits_among(grid.rects(), candidates@, start, end),
        comparable(hits@),
{
    let mut hits: Vec<RayHit> = Vec::new();
    let mut i: usize = 0;
    while i < candidates.len()
        invariant
            i <= candidates@.len(),
            grid.wf(),
            start.in_range(),
            end.in_range(),
            hits@ == hits_among(grid.rects(), candidates@.take(i as int), start, end),
            comparable(hits@),
        decreases candidates@.len() - i,
    {
        let node: usize = candidates[i];
        proof {
            assert(candidates@.take(i + 1).drop_last() == candidates@.take(i as int));
            assert(candidates@.take(i + 1).last() == node);
        }
        match grid.get_node_rect(node) {
            Some(rect) => {
                match ray_aabb(&rect, start, end) {
                    Some((entry, _)) => {
                        hits.push(RayHit { distance: entry, node });
                    },
                    None => {},
                }
            },
            None => {},
        }
        i += 1;
    }
    proof {
        assert(candidates@.take(i as int) == candidates@);
    }
    hits
}

/// A ray cast from a body along its forward axis, and what it hit at the last query.
#[derive(Debug, Clone)]
pub struct RayCast {
    pub node_id: usize,
    pub len: i64,
    pub intersects: Vec<usize>,
}

impl RayCast {
    pub fn new(node_inx: usize, len: i64) -> (ray: Self)
        ensures
            ray.node_id == node_inx,
            ray.len == len,
            ray.intersects@ == Seq::<usize>::empty(),
    {
        Self { node_id: node_inx, len, intersects: Vec::new() }
    }

    /// Forgets what the ray hit.
    pub fn clear(&mut self)
        ensures
            final(self).node_id == old(self).node_id,
            final(self).len == old(self).len,
            final(self).intersects@ == Seq::<usize>::empty(),
    {
        self.intersects.clear();
    }

    /// Stores the result of a query: the bodies that the ray entered, the body
    /// that casts it left out, nearest first.
    pub fn record(&mut self, hits: &Vec<RayHit>)
        requires
            comparable(hits@),
        ensures
            final(self).node_id == old(self).node_id,
            final(self).len == old(self).len,
            final(self).intersects@ == nodes_of(sort_hits(without_origin(hits@, old(self).node_id))),
    {
        let mut others: Vec<RayHit> = Vec::new();
        let mut i: usize = 0;
        while i < hits.len()
            invariant
                i <= hits@.len(),
                others@ == without_origin(hits@.take(i as int), self.node_id),
                comparable(others@),
                comparable(hits@),
                self.node_id == old(self).node_id,
                self.len == old(self).len,
            decreases hits@.len() - i,
        {
            let hit: RayHit = hits[i];
            proof {
                assert(hits@.take(i + 1).drop_last() == hits@.take(i as int));
                assert(hits@.take(i + 1).last() == hit);
            }
            if hit.node != self.node_id {
                others.push(hit);
            }
            i += 1;
        }
        proof {
            assert(hits@.take(i as int) == hits@);
        }
        let sorted = sort_by_distance(&others);
        let mut nodes: Vec<usize> = Vec::new();
        let mut k: usize = 0;
        while k < sorted.len()
            invariant
                k <= sorted@.len(),
                nodes@ == nodes_of(sorted@.take(k as int)),
            decreases sorted@.len() - k,
        {
            nodes.push(sorted[k].node);
            k += 1;
            proof {
                assert(sorted@.take(k as int) == sorted@.take(k - 1).push(sorted@[k - 1]));
                assert(nodes@ =~= nodes_of(sorted@.take(k as int)));
            }
        }
        proof {
            assert(sorted@.take(k as int) == sorted@);
        }
        self.intersects = nodes;
    }

    /// Answers the query for the segment from `start` to `end`: the candidates
    /// come from the cells of `grid` that the span of the segment reaches into,
    /// each is tested against the segment, and the bodies hit are stored nearest
    /// first, the body that casts the ray left out. Nothing is hit where an end
    /// of the segment lies beyond the limit of the collision arithmetic.
    pub fn cast(&mut self, grid: &SpatialGrid, start: Point3, end: Point3)
        requires
            grid.wf(),
        ensures
            final(self).node_id == old(self).node_id,
            final(self).len == old(self).len,
            !(start.in_range() && end.in_range()) ==> final(self).intersects@ == Seq::<
                usize,
            >::empty(),
            start.in_range() && end.in_range() ==> exists|candidates: Seq<usize>|
                {
                    &&& candidates.no_duplicates()
                    &&& forall|id: usize|
                        candidates.contains(id) <==> grid.near_segment(id, start, end)
                    &&& final(self).intersects@ == nodes_of(
                        sort_hits(
                            without_origin(
                                #[trigger] hits_among(grid.rects(), candidates, start, end),
                                old(self).node_id,
                            ),
                        ),
                    )
                },
    {
        if !(start.is_in_range() && end.is_in_range()) {
            self.intersects.clear();
            return ;
        }
        let candidates = grid.get_line_ray_nodes(start, end);
        let hits = collect_hits(grid, &candidates, start, end);
        self.record(&hits);
    }
}

/// Whether `hit` is a hit of the segment on a body of the list: the body has a
/// box among `rects` that the segment meets, and the distance of the hit is the
/// fraction of the segment at which it enters that box.
pub open spec fn is_entry(
    rects: Map<usize, AABB>,
    candidates: Seq<usize>,
    start: Point3,
    end: Point3,
    hit: RayHit,
) -> bool {
    &&& candidates.contains(hit.node)
    &&& rects.contains_key(hit.node)
    &&& ray_hit(rects[hit.node], start, end) is Some
    &&& hit.distance == entry_of(ray_hit(rects[hit.node], start, end))
}

/// Every hit among the candidates is the entry of the segment into the box of
/// its body, and its distance can be compared.
pub proof fn lemma_hits_among(
    rects: Map<usize, AABB>,
    candidates: Seq<usize>,
    start: Point3,
    end: Point3,
)
    requires
        forall|id: usize| #[trigger] rects.contains_key(id) ==> rects[id].in_range(),
        start.in_range(),
        end.in_range(),
    ensures
        comparable(hits_among(rects, candidates, start, end)),
        forall|hit: RayHit| #[trigger]
            hits_among(rects, candidates, start, end).contains(hit) ==> is_entry(
                rects,
                candidates,
                start,
                end,
                hit,
            ),
    decreases candidates.len(),
{
    let hits = hits_among(rects, candidates, start, end);
    if candidates.len() > 0 {
        let rest_of = candidates.drop_last();
        let rest = hits_among(rects, rest_of, start, end);
        let node = candidates.last();
        lemma_hits_among(rects, rest_of, start, end);
        if rects.contains_key(node) {
            lemma_ray_hit_valid(rects[node], start, end);
        }
        assert(candidates.contains(node)) by {
            assert(candidates[candidates.len() - 1] == node);
        }
        assert forall|hit: RayHit| #[trigger] hits.contains(hit) implies is_entry(
            rects,
            candidates,
            start,
            end,
            hit,
        ) by {
            if rest.contains(hit) {
                assert(is_entry(rects, rest_of, start, end, hit));
                let k = choose|k: int| 0 <= k < rest_of.len() && rest_of[k] == hit.node;
                assert(candidates[k] == hit.node);
            } else {
                let k = choose|k: int| 0 <= k < hits.len() && hits[k] == hit;
                if k < rest.len() {
                    assert(rest[k] == hit);
                    assert(rest.contains(hit));
                }
            }
        }
        assert forall|i: int| 0 <= i < hits.len() implies (#[trigger] hits[i]).distance.is_valid() by {
            if i < rest.len() {
                assert(hits[i] == rest[i]);
            }
        }
    } else {
        assert forall|hit: RayHit| !(#[trigger] hits.contains(hit)) by {}
    }
}

/// What is left without the origin is part of what was given.
pub proof fn lemma_without_origin_within(hits: Seq<RayHit>, origin: usize)
    ensures
        forall|hit: RayHit| #[trigger]
            without_origin(hits, origin).contains(hit) ==> hits.contains(hit) && hit.node
                != origin,
    decreases hits.len(),
{
    let kept = without_origin(hits, origin);
    if hits.len() > 0 {
        let rest = hits.drop_last();
        lemma_without_origin_within(rest, origin);
        assert forall|hit: RayHit| #[trigger] kept.contains(hit) implies hits.contains(hit)
            && hit.node != origin by {
            let k = choose|k: int| 0 <= k < kept.len() && kept[k] == hit;
            let before = without_origin(rest, origin);
            if k < before.len() {
                assert(before[k] == hit);
                assert(before.contains(hit));
                let j = choose|j: int| 0 <= j < rest.len() && rest[j] == hit;
                assert(hits[j] == hit);
            } else {
                assert(hit == hits.last());
                assert(hits[hits.len() - 1] == hit);
            }
        }
    } else {
        assert forall|hit: RayHit| !(#[trigger] kept.contains(hit)) by {}
    }
}

/// Ray-cast ordering by entry: the list that a query stores names, nearest
/// first, bodies other than the one that casts the ray whose boxes the segment
/// meets, and the distance by which they are ordered is the fraction of the
/// segment at which it enters each box.
pub proof fn lemma_cast_order(
    rects: Map<usize, AABB>,
    candidates: Seq<usize>,
    origin: usize,
    start: Point3,
    end: Point3,
)
    requires
        forall|id: usize| #[trigger] rects.contains_key(id) ==> rects[id].in_range(),
        start.in_range(),
        end.in_range(),
    ensures
        ({
            let sorted = sort_hits(
                without_origin(hits_among(rects, candidates, start, end), origin),
            );
            &&& ascending(sorted)
            &&& forall|i: int|
                0 <= i < sorted.len() ==> (#[trigger] sorted[i]).node != origin && is_entry(
                    rects,
                    candidates,
                    start,
                    end,
                    sorted[i],
                )
            &&& forall|i: int, j: int|
                0 <= i <= j < sorted.len() ==> entry_of(
                    ray_hit(rects[sorted[i].node], start, end),
                ).le(&entry_of(ray_hit(rects[sorted[j].node], start, end)))
        }),
{
    broadcast use vstd::seq_lib::group_to_multiset_ensures;

    let hits = hits_among(rects, candidates, start, end);
    let others = without_origin(hits, origin);
    let sorted = sort_hits(others);
    lemma_hits_among(rects, candidates, start, end);
    lemma_without_origin_comparable(hits, origin);
    lemma_without_origin_within(hits, origin);
    lemma_sort_hits_ascending(others);
    assert forall|i: int| 0 <= i < sorted.len() implies (#[trigger] sorted[i]).node != origin
        && is_entry(rects, candidates, start, end, sorted[i]) by {
        assert(sorted.to_multiset().count(sorted[i]) > 0);
        assert(others.to_multiset().count(sorted[i]) > 0);
        assert(others.contains(sorted[i]));
        assert(hits.contains(sorted[i]));
    }
    assert forall|i: int, j: int| 0 <= i <= j < sorted.len() implies entry_of(
        ray_hit(rects[sorted[i].node], start, end),
    ).le(&entry_of(ray_hit(rects[sorted[j].node], start, end))) by {
        assert(sorted[i].distance.le(&sorted[j].distance));
        assert(is_entry(rects, candidates, start, end, sorted[i]));
        assert(is_entry(rects, candidates, start, end, sorted[j]));
    }
}

/// Ray-cast ordering: what a query stores is the list of bodies of a list of
/// hits that ascends in distance, and no hit is on the body that casts the ray.
pub proof fn lemma_record_ascending(hits: Seq<RayHit>, origin: usize)
    requires
        comparable(hits),
    ensures
        ascending(sort_hits(without_origin(hits, origin))),
        forall|i: int|
            0 <= i < nodes_of(sort_hits(without_origin(hits, origin))).len() ==> nodes_of(
                sort_hits(without_origin(hits, origin)),
            )[i] != origin,
{
    broadcast use vstd::seq_lib::group_to_multiset_ensures;

    let others = without_origin(hits, origin);
    lemma_without_origin_comparable(hits, origin);
    lemma_sort_hits_ascending(others);
    let sorted = sort_hits(others);
    assert forall|i: int| 0 <= i < nodes_of(sorted).len() implies nodes_of(sorted)[i] != origin by {
        assert(sorted.to_multiset().count(sorted[i]) > 0);
        assert(others.to_multiset().count(sorted[i]) > 0);
        assert(others.contains(sorted[i]));
        let k = choose|k: int| 0 <= k < others.len() && others[k] == sorted[i];
        assert(others[k].node != origin);
    }
}

} // verus!
