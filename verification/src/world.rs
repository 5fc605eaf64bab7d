use crate::aabb::AABB;
use crate::arena::Arena;
use crate::arena::ArenaId;
use crate::physics::PhysicsSystem;
use crate::spatial_grid::position_of;
use crate::spatial_grid::SpatialGrid;
use std::collections::HashMap;
use vstd::prelude::*;

verus! {

/// The cell width of the grids of a world made by `PhysicsWorld::new`.
pub const DEFAULT_CELL_SIZE: i64 = 5;

/// The broad-phase grid and the simulation of one scene.
pub struct SceneCollection {
    pub grid: SpatialGrid,
    pub physics_system: PhysicsSystem,
}

/// Where a body was when the world last looked: its scene and its box.
#[derive(Debug, Clone, Copy, PartialEq, Eq, Structural)]
pub struct Placement {
    pub scene: usize,
    pub aabb: AABB,
}

/// The physics of all scenes: one grid and one simulation for each scene, and
/// for each body that takes part the placement it was last seen with.
pub struct PhysicsWorld {
    cell_size: i64,
    scene_collections: HashMap<usize, SceneCollection>,
    scene_ids: Vec<usize>,
    node_records: HashMap<usize, Placement>,
    node_ids: Vec<usize>,
}

impl PhysicsWorld {
    /// The grid and simulation of each scene that the world knows.
    pub closed spec fn collections(&self) -> Map<usize, SceneCollection> {
        self.scene_collections@
    }

    /// The scenes that the world knows, in the order in which it met them.
    pub closed spec fn scenes(&self) -> Seq<usize> {
        self.scene_ids@
    }

    /// The placement last seen of each body that takes part.
    pub closed spec fn records(&self) -> Map<usize, Placement> {
        self.node_records@
    }

    /// The bodies that take part, in the order in which they came to.
    pub closed spec fn nodes(&self) -> Seq<usize> {
        self.node_ids@
    }

    /// The cell width that the grid of a new scene gets.
    pub closed spec fn cell_size(&self) -> int {
        self.cell_size as int
    }

    /// What holds of every world: its lists name exactly the scenes and bodies
    /// it knows, each once, and every scene's grid and simulation are in order.
    pub open spec fn wf(&self) -> bool {
        &&& self.cell_size() >= 1
        &&& self.scenes_listed()
        &&& self.nodes_listed()
        &&& self.scenes_sound()
    }

    /// The list of scenes names the scenes that the world knows, each once.
    pub open spec fn scenes_listed(&self) -> bool {
        &&& self.scenes().no_duplicates()
        &&& forall|scene: usize|
            #![trigger self.scenes().contains(scene)]
            #![trigger self.collections().contains_key(scene)]
            self.scenes().contains(scene) <==> self.collections().contains_key(scene)
    }

    /// The list of bodies names the bodies with a placement on record, each once.
    pub open spec fn nodes_listed(&self) -> bool {
        &&& self.nodes().no_duplicates()
        &&& forall|id: usize|
            #![trigger self.nodes().contains(id)]
            #![trigger self.records().contains_key(id)]
            self.nodes().contains(id) <==> self.records().contains_key(id)
    }

    /// The grid and the simulation of every scene are in order.
    pub open spec fn scenes_sound(&self) -> bool {
        forall|scene: usize| #[trigger]
            self.collections().contains_key(scene) ==> self.collections()[scene].grid.wf()
                && self.collections()[scene].physics_system.wf()
    }

    /// The boxes that the grid of `scene` holds; none where the world does not
    /// know the scene.
    pub open spec fn grid_rects(&self, scene: usize) -> Map<usize, AABB> {
        if self.collections().contains_key(scene) {
            self.collections()[scene].grid.rects()
        } else {
            Map::empty()
        }
    }

    /// Whether the grids agree with the record: every body that takes part has,
    /// in the grid of its scene, the box on record for it.
    pub open spec fn coherent(&self) -> bool {
        forall|id: usize| #[trigger]
            self.records().contains_key(id) ==> self.grid_rects(
                self.records()[id].scene,
            ).contains_key(id) && self.grid_rects(self.records()[id].scene)[id]
                == self.records()[id].aabb
    }

    /// Whether the grids hold nothing but what is on record: every body that a
    /// grid lists takes part, and the grid is that of the scene on record for it.
    pub open spec fn tight(&self) -> bool {
        forall|scene: usize, id: usize| #[trigger]
            self.grid_rects(scene).contains_key(id) ==> self.records().contains_key(id)
                && self.records()[id].scene == scene
    }

    /// Whether every scene but `scene` is in `before` what it is here.
    pub open spec fn others_kept(&self, before: &Self, scene: usize) -> bool {
        forall|other: usize|
            other != scene ==> (#[trigger] self.collections().contains_key(other))
                == before.collections().contains_key(other) && (self.collections().contains_key(
                other,
            ) ==> self.collections()[other] == before.collections()[other])
    }

    /// A world without scenes, whose grids will have cells of the default width.
    pub fn new() -> (world: Self)
        ensures
            world.wf(),
            world.coherent(),
            world.tight(),
            world.cell_size() == DEFAULT_CELL_SIZE,
            world.collections() == Map::<usize, SceneCollection>::empty(),
            world.records() == Map::<usize, Placement>::empty(),
    {
        Self::with_cell_size(DEFAULT_CELL_SIZE)
    }

    /// A world without scenes, whose grids will have cells of width `cell_size`.
    pub fn with_cell_size(cell_size: i64) -> (world: Self)
        requires
            cell_size >= 1,
        ensures
            world.wf(),
            world.coherent(),
            world.tight(),
            world.cell_size() == cell_size,
            world.collections() == Map::<usize, SceneCollection>::empty(),
            world.records() == Map::<usize, Placement>::empty(),
    {
        broadcast use vstd::std_specs::hash::group_hash_axioms;

        let world = PhysicsWorld {
            cell_size,
            scene_collections: HashMap::new(),
            scene_ids: Vec::new(),
            node_records: HashMap::new(),
            node_ids: Vec::new(),
        };
        assert(world.collections() =~= Map::<usize, SceneCollection>::empty());
        assert(world.records() =~= Map::<usize, Placement>::empty());
        world
    }

    /// Makes the world know `scene_id`: a scene that it does not know yet gets
    /// an empty grid and a fresh simulation; one that it knows stays as it is.
    pub fn ensure_scene(&mut self, scene_id: usize)
        requires
            old(self).wf(),
        ensures
            final(self).wf(),
            final(self).cell_size() == old(self).cell_size(),
            final(self).records() == old(self).records(),
            final(self).nodes() == old(self).nodes(),
            final(self).collections().contains_key(scene_id),
            old(self).collections().contains_key(scene_id) ==> final(self).collections() == old(self).collections() && final(self).scenes() == old(self).scenes(),
            !old(self).collections().contains_key(scene_id) ==> {
                &&& final(self).collections().dom() == old(self).collections().dom().insert(
                    scene_id,
                )
                &&& forall|other: usize|
                    other != scene_id && old(self).collections().contains_key(other) ==> (
                    #[trigger] final(self).collections()[other]) == old(self).collections()[other]
                &&& final(self).grid_rects(scene_id) == Map::<usize, AABB>::empty()
                &&& final(self).collections()[scene_id].grid.size() == old(self).cell_size()
                &&& final(self).scenes() == old(self).scenes().push(scene_id)
            },
    {
        broadcast use vstd::std_specs::hash::group_hash_axioms;

        if !self.scene_collections.contains_key(&scene_id) {
            let collection = SceneCollection {
                grid: SpatialGrid::new(self.cell_size),
                physics_system: PhysicsSystem::new(),
            };
            self.scene_collections.insert(scene_id, collection);
            self.scene_ids.push(scene_id);
            proof {
                let before = old(self).scenes();
                assert(!before.contains(scene_id));
                assert forall|scene: usize|
                    self.scenes().contains(scene) <==> self.collections().contains_key(scene) by {
                    vstd::seq_lib::lemma_seq_contains_after_push(before, scene_id, scene);
                    assert(before.contains(scene) <==> old(self).collections().contains_key(scene));
                }
                assert(self.scenes().no_duplicates()) by {
                    assert forall|i: int, j: int|
                        0 <= i < self.scenes().len() && 0 <= j < self.scenes().len() && i
                            != j implies self.scenes()[i] != self.scenes()[j] by {
                        if i < before.len() {
                            assert(before.contains(self.scenes()[i]));
                        }
                        if j < before.len() {
                            assert(before.contains(self.scenes()[j]));
                        }
                    }
                }
                assert(final(self).collections().dom() =~= old(self).collections().dom().insert(
                    scene_id,
                ));
            }
        }
    }

    /// Gives the body `node_id` the box `aabb` in the grid of `scene_id`, which
    /// the world comes to know if it did not. The placements on record are not
    /// touched.
    pub fn set_node_aabb(&mut self, scene_id: usize, node_id: usize, aabb: AABB)
        requires
            old(self).wf(),
            aabb.in_range(),
        ensures
            final(self).wf(),
            final(self).cell_size() == old(self).cell_size(),
            final(self).records() == old(self).records(),
            final(self).nodes() == old(self).nodes(),
            final(self).collections().contains_key(scene_id),
            final(self).grid_rects(scene_id) == old(self).grid_rects(scene_id).insert(node_id, aabb),
            final(self).others_kept(old(self), scene_id),
            old(self).collections().contains_key(scene_id) ==> final(self).collections()[scene_id].physics_system == old(self).collections()[scene_id].physics_system,
    {
        broadcast use vstd::std_specs::hash::group_hash_axioms;

        self.ensure_scene(scene_id);
        let ghost known = self.collections();
        let ghost listed = self.scenes();
        match self.scene_collections.remove(&scene_id) {
            Some(collection) => {
                let mut collection = collection;
                collection.grid.set_node(node_id, aabb);
                self.scene_collections.insert(scene_id, collection);
                proof {
                    assert(self.collections().dom() =~= known.dom());
                    assert forall|scene: usize|
                        self.scenes().contains(scene) <==> self.collections().contains_key(
                            scene,
                        ) by {
                        assert(listed.contains(scene) <==> known.contains_key(scene));
                    }
                    assert forall|scene: usize| #[trigger]
                        self.collections().contains_key(scene) implies self.collections()[scene].grid.wf()
                        && self.collections()[scene].physics_system.wf() by {
                        assert(known.contains_key(scene));
                    }
                }
            },
            None => {},
        }
    }

    /// Takes the body `node_id` out of the physics: its placement is forgotten
    /// and the grid of the scene on record no longer lists it.
    pub fn remove_node_from_physics(&mut self, node_id: usize)
        requires
            old(self).wf(),
        ensures
            final(self).wf(),
            final(self).cell_size() == old(self).cell_size(),
            final(self).scenes() == old(self).scenes(),
            final(self).records() == old(self).records().remove(node_id),
            old(self).coherent() ==> final(self).coherent(),
            old(self).tight() ==> final(self).tight(),
            !old(self).records().contains_key(node_id) ==> final(self).collections() == old(self).collections() && final(self).nodes() == old(self).nodes(),
            old(self).records().contains_key(node_id) ==> {
                let scene = old(self).records()[node_id].scene;
                &&& final(self).grid_rects(scene) == old(self).grid_rects(scene).remove(node_id)
                &&& final(self).others_kept(old(self), scene)
                &&& final(self).collections().contains_key(scene) == old(self).collections().contains_key(scene)
            },
    {
        broadcast use vstd::std_specs::hash::group_hash_axioms;

        match self.node_records.remove(&node_id) {
            Some(record) => {
                let ghost known = self.collections();
                let ghost listed = self.scenes();
                match self.scene_collections.remove(&record.scene) {
                    Some(collection) => {
                        let mut collection = collection;
                        assert(old(self).collections().contains_key(record.scene));
                        assert(collection.grid.wf());
                        collection.grid.rem_node(node_id);
                        self.scene_collections.insert(record.scene, collection);
                        proof {
                            assert(self.collections().dom() =~= known.dom());
                            assert forall|scene: usize|
                                self.scenes().contains(scene) <==> self.collections().contains_key(
                                    scene,
                                ) by {
                                assert(listed.contains(scene) <==> known.contains_key(scene));
                            }
                            assert forall|scene: usize| #[trigger]
                                self.collections().contains_key(
                                    scene,
                                ) implies self.collections()[scene].grid.wf()
                                && self.collections()[scene].physics_system.wf() by {
                                assert(known.contains_key(scene));
                            }
                        }
                    },
                    None => {
                        proof {
                            assert(self.collections() =~= known);
                            assert(self.grid_rects(record.scene) =~= old(self).grid_rects(
                                record.scene,
                            ).remove(node_id));
                            assert forall|scene: usize| #[trigger]
                                self.collections().contains_key(
                                    scene,
                                ) implies self.collections()[scene].grid.wf()
                                && self.collections()[scene].physics_system.wf() by {
                                assert(known.contains_key(scene));
                            }
                        }
                    },
                }
                let ghost settled = self.collections();
                let ghost before = self.node_ids@;
                match position_of(&self.node_ids, node_id) {
                    Some(at) => {
                        self.node_ids.remove(at);
                        proof {
                            lemma_remove_one(before, at as int);
                        }
                    },
                    None => {
                        assert(before.contains(node_id));
                    },
                }
                proof {
                    assert(self.records() =~= old(self).records().remove(node_id));
                    assert forall|id: usize|
                        self.nodes().contains(id) <==> self.records().contains_key(id) by {
                        assert(before.contains(id) <==> old(self).records().contains_key(id));
                    }
                    assert(self.collections() == settled);
                    assert forall|scene: usize| #[trigger]
                        self.collections().contains_key(scene) implies self.collections()[scene].grid.wf()
                        && self.collections()[scene].physics_system.wf() by {
                        assert(settled.contains_key(scene));
                    }
                    assert(self.scenes() == old(self).scenes());
                    assert forall|scene: usize|
                        self.scenes().contains(scene) <==> self.collections().contains_key(
                            scene,
                        ) by {
                        assert(old(self).scenes().contains(scene) <==> old(self).collections().contains_key(scene));
                    }
                    assert(self.scenes_listed());
                    assert(self.nodes_listed());
                    assert(self.scenes_sound());
                    if old(self).tight() {
                        assert forall|scene: usize, id: usize| #[trigger]
                            self.grid_rects(scene).contains_key(id) implies self.records().contains_key(
                            id,
                        ) && self.records()[id].scene == scene by {
                            if scene != record.scene {
                                assert(self.collections().contains_key(scene) == old(self).collections().contains_key(scene));
                                assert(self.grid_rects(scene) == old(self).grid_rects(scene));
                            }
                            assert(old(self).grid_rects(scene).contains_key(id));
                        }
                    }
                }
            },
            None => {
                proof {
                    assert(self.records() =~= old(self).records().remove(node_id));
                    assert(self.records() == old(self).records());
                    if old(self).tight() {
                        assert forall|scene: usize, id: usize| #[trigger]
                            self.grid_rects(scene).contains_key(id) implies self.records().contains_key(
                            id,
                        ) && self.records()[id].scene == scene by {
                            assert(old(self).grid_rects(scene).contains_key(id));
                        }
                    }
                    assert(self.scenes_listed());
                    assert(self.nodes_listed());
                    assert(self.scenes_sound());
                }
            },
        }
    }

    /// Strikes the body `node_id` from the grid of `scene`, where the world
    /// knows the scene.
    fn strike_from_scene(&mut self, scene: usize, node_id: usize)
        requires
            old(self).wf(),
        ensures
            final(self).wf(),
            final(self).cell_size() == old(self).cell_size(),
            final(self).scenes() == old(self).scenes(),
            final(self).records() == old(self).records(),
            final(self).nodes() == old(self).nodes(),
            final(self).grid_rects(scene) == old(self).grid_rects(scene).remove(node_id),
            final(self).others_kept(old(self), scene),
            final(self).collections().contains_key(scene) == old(self).collections().contains_key(
                scene,
            ),
    {
        broadcast use vstd::std_specs::hash::group_hash_axioms;

        let ghost known = self.collections();
        match self.scene_collections.remove(&scene) {
            Some(collection) => {
                let mut collection = collection;
                assert(known.contains_key(scene));
                assert(collection.grid.wf());
                collection.grid.rem_node(node_id);
                self.scene_collections.insert(scene, collection);
                proof {
                    assert(self.collections().dom() =~= known.dom());
                    assert forall|other: usize|
                        self.scenes().contains(other) <==> self.collections().contains_key(
                            other,
                        ) by {
                        assert(old(self).scenes().contains(other) <==> known.contains_key(other));
                    }
                    assert forall|other: usize| #[trigger]
                        self.collections().contains_key(other) implies self.collections()[other].grid.wf()
                        && self.collections()[other].physics_system.wf() by {
                        assert(known.contains_key(other));
                    }
                    assert(self.scenes_listed());
                    assert(self.nodes_listed());
                    assert(self.scenes_sound());
                }
            },
            None => {
                proof {
                    assert(self.collections() =~= known);
                    assert(self.grid_rects(scene) =~= old(self).grid_rects(scene).remove(node_id));
                    assert(self.scenes_listed());
                    assert(self.nodes_listed());
                    assert(self.scenes_sound());
                }
            },
        }
    }

    /// Whether the placement on record for `id` is `placement`; `None` stands
    /// for a body that takes no part.
    pub open spec fn matches(&self, id: usize, placement: Option<Placement>) -> bool {
        match placement {
            Some(p) => self.records().contains_key(id) && self.records()[id] == p,
            None => !self.records().contains_key(id),
        }
    }

    /// Whether this world and `other` hold the same scenes, grids, simulations
    /// and placements.
    pub open spec fn same_as(&self, other: &Self) -> bool {
        &&& self.cell_size() == other.cell_size()
        &&& self.collections() == other.collections()
        &&& self.scenes() == other.scenes()
        &&& self.records() == other.records()
        &&& self.nodes() == other.nodes()
    }

    /// The boxes that the grid of `scene` holds once the body `id`, whose
    /// placement on record is another, has been brought up to date with
    /// `placement`: its new box where this is its scene, no box of it where this
    /// is the scene on record, and the boxes as they were in any other scene.
    pub open spec fn synced_rects(
        &self,
        scene: usize,
        id: usize,
        placement: Option<Placement>,
    ) -> Map<usize, AABB> {
        match placement {
            Some(p) if p.scene == scene => self.grid_rects(scene).insert(id, p.aabb),
            _ => if self.records().contains_key(id) && self.records()[id].scene == scene {
                self.grid_rects(scene).remove(id)
            } else {
                self.grid_rects(scene)
            },
        }
    }

    /// Brings the world up to date with one body: `placement` is its scene and
    /// its box, or `None` where it lacks either. A body whose placement is the
    /// one on record is left alone; one that has moved gets its new box in the
    /// grid of its scene and is struck from the grid of the scene it has left;
    /// one without a placement is taken out of the physics.
    pub fn sync_node(&mut self, id: usize, placement: Option<Placement>)
        requires
            old(self).wf(),
            placement matches Some(p) ==> p.aabb.in_range(),
        ensures
            final(self).wf(),
            final(self).cell_size() == old(self).cell_size(),
            final(self).matches(id, placement),
            old(self).matches(id, placement) ==> final(self).same_as(old(self)),
            old(self).coherent() ==> final(self).coherent(),
            old(self).tight() ==> final(self).tight(),
            final(self).records() == (match placement {
                Some(p) => old(self).records().insert(id, p),
                None => old(self).records().remove(id),
            }),
            forall|scene: usize|
                #![trigger final(self).grid_rects(scene)]
                !old(self).matches(id, placement) ==> final(self).grid_rects(scene) == old(self).synced_rects(scene, id, placement),
    {
        broadcast use vstd::std_specs::hash::group_hash_axioms;

        match placement {
            None => {
                self.remove_node_from_physics(id);
                proof {
                    if old(self).matches(id, placement) {
                        assert(self.records() =~= old(self).records());
                    }
                    assert forall|scene: usize|
                        #![trigger self.grid_rects(scene)]
                        !old(self).matches(id, placement) implies self.grid_rects(scene) == old(self).synced_rects(scene, id, placement) by {
                        let home = old(self).records()[id].scene;
                        if scene != home {
                            assert(self.collections().contains_key(scene) == old(self).collections().contains_key(scene));
                        }
                    }
                }
            },
            Some(p) => {
                let previous: Option<Placement> = match self.node_records.get(&id) {
                    Some(record) => Some(*record),
                    None => None,
                };
                match previous {
                    Some(record) => {
                        if record.scene == p.scene && record.aabb == p.aabb {
                            return ;
                        }
                        if record.scene != p.scene {
                            self.strike_from_scene(record.scene, id);
                        }
                    },
                    None => {},
                }
                let ghost struck = *self;
                self.set_node_aabb(p.scene, id, p.aabb);
                let ghost placed = *self;
                let ghost before = self.node_ids@;
                self.node_records.insert(id, p);
                if previous.is_none() {
                    self.node_ids.push(id);
                }
                proof {
                    assert(self.records() =~= old(self).records().insert(id, p));
                    assert(self.collections() == placed.collections());
                    assert forall|other: usize|
                        self.nodes().contains(other) <==> self.records().contains_key(other) by {
                        assert(before.contains(other) <==> old(self).records().contains_key(other));
                        if previous.is_none() {
                            vstd::seq_lib::lemma_seq_contains_after_push(before, id, other);
                        }
                    }
                    assert(self.nodes().no_duplicates()) by {
                        if previous.is_none() {
                            assert(!before.contains(id));
                            assert forall|i: int, j: int|
                                0 <= i < self.nodes().len() && 0 <= j < self.nodes().len() && i
                                    != j implies self.nodes()[i] != self.nodes()[j] by {
                                if i < before.len() {
                                    assert(before.contains(self.nodes()[i]));
                                }
                                if j < before.len() {
                                    assert(before.contains(self.nodes()[j]));
                                }
                            }
                        }
                    }
                    assert forall|scene: usize|
                        self.scenes().contains(scene) <==> self.collections().contains_key(
                            scene,
                        ) by {
                        assert(placed.scenes().contains(scene) <==> placed.collections().contains_key(
                            scene,
                        ));
                    }
                    assert forall|scene: usize| #[trigger]
                        self.collections().contains_key(scene) implies self.collections()[scene].grid.wf()
                        && self.collections()[scene].physics_system.wf() by {
                        assert(placed.collections().contains_key(scene));
                    }
                    assert(self.scenes_listed());
                    assert(self.nodes_listed());
                    assert(self.scenes_sound());
                    assert forall|scene: usize|
                        #![trigger self.grid_rects(scene)]
                        self.grid_rects(scene) == old(self).synced_rects(scene, id, placement) by {
                        assert(self.grid_rects(scene) == placed.grid_rects(scene));
                        if scene != p.scene {
                            assert(placed.collections().contains_key(scene)
                                == struck.collections().contains_key(scene));
                            assert(placed.grid_rects(scene) == struck.grid_rects(scene));
                            match previous {
                                Some(record) => {
                                    if record.scene != p.scene && scene != record.scene {
                                        assert(struck.collections().contains_key(scene) == old(self).collections().contains_key(scene));
                                    }
                                },
                                None => {},
                            }
                        } else {
                            match previous {
                                Some(record) => {
                                    if record.scene != p.scene {
                                        assert(struck.collections().contains_key(scene) == old(self).collections().contains_key(scene));
                                        assert(struck.grid_rects(scene) == old(self).grid_rects(scene));
                                    }
                                },
                                None => {},
                            }
                        }
                    }
                }
            },
        }
    }

    /// Whether the placement on record for every body of the list is the one
    /// that the list gives for it.
    pub open spec fn all_match(&self, bodies: Seq<(usize, Option<Placement>)>) -> bool {
        forall|k: int| 0 <= k < bodies.len() ==> self.matches((#[trigger] bodies[k]).0, bodies[k].1)
    }

    /// Brings the world up to date with every body of the list, in order. Each
    /// entry gives a body and its scene and box, or `None` where it lacks either.
    pub fn sync_from_state(&mut self, bodies: &Vec<(usize, Option<Placement>)>)
        requires
            old(self).wf(),
            placements_in_range(bodies@),
        ensures
            brought_up_to_date(old(self), final(self), bodies@),
    {
        let mut i: usize = 0;
        while i < bodies.len()
            invariant
                i <= bodies@.len(),
                placements_in_range(bodies@),
                self.wf(),
                self.cell_size() == old(self).cell_size(),
                old(self).all_match(bodies@) ==> self.same_as(old(self)),
                old(self).coherent() ==> self.coherent(),
                old(self).tight() ==> self.tight(),
                distinct_bodies(bodies@) ==> forall|k: int|
                    0 <= k < i ==> self.matches((#[trigger] bodies@[k]).0, bodies@[k].1),
            decreases bodies@.len() - i,
        {
            let id: usize = bodies[i].0;
            let placement: Option<Placement> = bodies[i].1;
            let ghost before = *self;
            proof {
                if old(self).all_match(bodies@) {
                    assert(old(self).matches(bodies@[i as int].0, bodies@[i as int].1));
                }
            }
            self.sync_node(id, placement);
            proof {
                if distinct_bodies(bodies@) {
                    assert forall|k: int| 0 <= k < i + 1 implies self.matches(
                        (#[trigger] bodies@[k]).0,
                        bodies@[k].1,
                    ) by {
                        if k < i {
                            assert(before.matches(bodies@[k].0, bodies@[k].1));
                            assert(bodies@[k].0 != bodies@[i as int].0);
                        }
                    }
                }
            }
            i += 1;
        }
    }

    /// Forgets every body for which `keep` answers no: it is struck from every
    /// grid, and its placement is dropped from the record. The bodies that stay
    /// keep their boxes and placements.
    pub fn retain_nodes<F: Fn(usize) -> bool>(&mut self, keep: &F)
        requires
            old(self).wf(),
            forall|id: usize| keep.requires((id,)),
        ensures
            final(self).wf(),
            final(self).cell_size() == old(self).cell_size(),
            final(self).scenes() == old(self).scenes(),
            forall|id: usize| #[trigger]
                final(self).records().contains_key(id) ==> old(self).records().contains_key(id)
                    && final(self).records()[id] == old(self).records()[id] && keep.ensures(
                    (id,),
                    true,
                ),
            forall|id: usize|
                old(self).records().contains_key(id) && !(#[trigger] final(self).records().contains_key(
                    id,
                )) ==> keep.ensures((id,), false),
            forall|scene: usize, id: usize| #[trigger]
                final(self).grid_rects(scene).contains_key(id) ==> old(self).grid_rects(
                    scene,
                ).contains_key(id) && final(self).grid_rects(scene)[id] == old(self).grid_rects(
                    scene,
                )[id] && keep.ensures((id,), true),
            forall|scene: usize, id: usize|
                old(self).grid_rects(scene).contains_key(id) && !(#[trigger] final(self).grid_rects(
                    scene,
                ).contains_key(id)) ==> keep.ensures((id,), false),
    {
        broadcast use vstd::std_specs::hash::group_hash_axioms;

        let mut s: usize = 0;
        while s < self.scene_ids.len()
            invariant
                s <= self.scene_ids@.len(),
                self.wf(),
                self.cell_size() == old(self).cell_size(),
                self.scenes() == old(self).scenes(),
                self.records() == old(self).records(),
                self.nodes() == old(self).nodes(),
                self.collections().dom() == old(self).collections().dom(),
                forall|id: usize| keep.requires((id,)),
                forall|scene: usize, id: usize| #[trigger]
                    self.grid_rects(scene).contains_key(id) ==> old(self).grid_rects(
                        scene,
                    ).contains_key(id) && self.grid_rects(scene)[id] == old(self).grid_rects(
                        scene,
                    )[id],
                forall|scene: usize, id: usize|
                    old(self).grid_rects(scene).contains_key(id) && !(#[trigger] self.grid_rects(
                        scene,
                    ).contains_key(id)) ==> keep.ensures((id,), false),
                forall|k: int, id: usize|
                    0 <= k < s && #[trigger] self.grid_rects(self.scene_ids@[k]).contains_key(id)
                        ==> keep.ensures((id,), true),
            decreases self.scene_ids@.len() - s,
        {
            let scene: usize = self.scene_ids[s];
            let ghost known = self.collections();
            let ghost listed = self.scene_ids@;
            let ghost before = *self;
            assert(self.scenes().contains(scene));
            match self.scene_collections.remove(&scene) {
                Some(collection) => {
                    let mut collection = collection;
                    assert(known.contains_key(scene));
                    assert(collection.grid.wf());
                    collection.grid.retain_nodes(keep);
                    self.scene_collections.insert(scene, collection);
                    proof {
                        assert(self.collections().dom() =~= known.dom());
                        assert forall|other: usize|
                            self.scenes().contains(other) <==> self.collections().contains_key(
                                other,
                            ) by {
                            assert(listed.contains(other) <==> known.contains_key(other));
                        }
                        assert forall|other: usize| #[trigger]
                            self.collections().contains_key(
                                other,
                            ) implies self.collections()[other].grid.wf()
                            && self.collections()[other].physics_system.wf() by {
                            assert(known.contains_key(other));
                        }
                        assert(self.scenes_listed());
                        assert(self.nodes_listed());
                        assert(self.scenes_sound());
                        assert forall|other: usize| other != scene implies self.grid_rects(other)
                            == before.grid_rects(other) by {
                            assert(self.collections().contains_key(other) == known.contains_key(
                                other,
                            ));
                        }
                        assert forall|k: int, id: usize|
                            0 <= k < s + 1 && #[trigger] self.grid_rects(
                                self.scene_ids@[k],
                            ).contains_key(id) implies keep.ensures((id,), true) by {
                            if k < s {
                                assert(listed[k] != listed[s as int]);
                                assert(before.grid_rects(listed[k]).contains_key(id));
                            }
                        }
                        assert forall|other: usize, id: usize| #[trigger]
                            self.grid_rects(other).contains_key(id) implies old(self).grid_rects(
                            other,
                        ).contains_key(id) && self.grid_rects(other)[id] == old(self).grid_rects(
                            other,
                        )[id] by {
                            if other == scene {
                                assert(before.grid_rects(other).contains_key(id));
                            } else {
                                assert(before.grid_rects(other).contains_key(id));
                            }
                        }
                        assert forall|other: usize, id: usize|
                            old(self).grid_rects(other).contains_key(id) && !(
                            #[trigger] self.grid_rects(other).contains_key(
                                id,
                            )) implies keep.ensures((id,), false) by {
                            if other == scene {
                                if before.grid_rects(other).contains_key(id) {
                                } else {
                                    assert(!before.grid_rects(other).contains_key(id));
                                }
                            } else {
                                assert(!before.grid_rects(other).contains_key(id));
                            }
                        }
                    }
                },
                None => {},
            }
            s += 1;
        }
        proof {
            assert forall|scene: usize, id: usize| #[trigger]
                self.grid_rects(scene).contains_key(id) implies keep.ensures((id,), true) by {
                assert(self.collections().contains_key(scene));
                assert(self.scenes().contains(scene));
                let k = choose|k: int| 0 <= k < self.scene_ids@.len() && self.scene_ids@[k] == scene;
                assert(self.grid_rects(self.scene_ids@[k]).contains_key(id));
            }
        }
        let ghost swept = *self;
        let mut i: usize = 0;
        while i < self.node_ids.len()
            invariant
                i <= self.node_ids@.len(),
                self.wf(),
                self.cell_size() == old(self).cell_size(),
                self.scenes() == old(self).scenes(),
                self.collections() == swept.collections(),
                forall|scene: usize, id: usize| #[trigger]
                    swept.grid_rects(scene).contains_key(id) ==> old(self).grid_rects(
                        scene,
                    ).contains_key(id) && swept.grid_rects(scene)[id] == old(self).grid_rects(
                        scene,
                    )[id] && keep.ensures((id,), true),
                forall|scene: usize, id: usize|
                    old(self).grid_rects(scene).contains_key(id) && !(#[trigger] swept.grid_rects(
                        scene,
                    ).contains_key(id)) ==> keep.ensures((id,), false),
                forall|id: usize| keep.requires((id,)),
                forall|id: usize| #[trigger]
                    self.records().contains_key(id) ==> old(self).records().contains_key(id)
                        && self.records()[id] == old(self).records()[id],
                forall|id: usize|
                    old(self).records().contains_key(id) && !(#[trigger] self.records().contains_key(
                        id,
                    )) ==> keep.ensures((id,), false),
                forall|k: int| 0 <= k < i ==> keep.ensures((#[trigger] self.node_ids@[k],), true),
            decreases self.node_ids@.len() - i,
        {
            let id: usize = self.node_ids[i];
            let ghost before = self.node_ids@;
            let ghost on_record = self.records();
            let ghost entered = *self;
            assert(self.nodes().contains(id));
            if keep(id) {
                i += 1;
            } else {
                self.node_records.remove(&id);
                self.node_ids.remove(i);
                proof {
                    lemma_remove_one(before, i as int);
                    assert(self.records() =~= on_record.remove(id));
                    assert forall|other: usize|
                        self.nodes().contains(other) <==> self.records().contains_key(other) by {
                        assert(before.contains(other) <==> on_record.contains_key(other));
                    }
                    assert forall|scene: usize|
                        self.scenes().contains(scene) <==> self.collections().contains_key(
                            scene,
                        ) by {
                        assert(entered.scenes().contains(scene)
                            <==> entered.collections().contains_key(scene));
                    }
                    assert forall|scene: usize| #[trigger]
                        self.collections().contains_key(scene) implies self.collections()[scene].grid.wf()
                        && self.collections()[scene].physics_system.wf() by {
                        assert(entered.collections().contains_key(scene));
                    }
                    assert(self.scenes_listed());
                    assert(self.nodes_listed());
                    assert(self.scenes_sound());
                }
            }
        }
        proof {
            assert forall|id: usize| #[trigger] self.records().contains_key(id) implies keep.ensures(
                (id,),
                true,
            ) by {
                assert(self.nodes().contains(id));
                let k = choose|k: int| 0 <= k < self.node_ids@.len() && self.node_ids@[k] == id;
                assert(keep.ensures((self.node_ids@[k],), true));
            }
            assert forall|scene: usize, id: usize| #[trigger]
                self.grid_rects(scene).contains_key(id) implies old(self).grid_rects(
                scene,
            ).contains_key(id) && self.grid_rects(scene)[id] == old(self).grid_rects(scene)[id]
                && keep.ensures((id,), true) by {
                assert(self.grid_rects(scene) == swept.grid_rects(scene));
                assert(swept.grid_rects(scene).contains_key(id));
            }
            assert forall|scene: usize, id: usize|
                old(self).grid_rects(scene).contains_key(id) && !(#[trigger] self.grid_rects(
                    scene,
                ).contains_key(id)) implies keep.ensures((id,), false) by {
                assert(self.grid_rects(scene) == swept.grid_rects(scene));
                assert(!swept.grid_rects(scene).contains_key(id));
            }
        }
    }

    /// The scenes that the world knows, in the order in which it met them.
    pub fn scene_list(&self) -> (scenes: &Vec<usize>)
        ensures
            scenes@ == self.scenes(),
    {
        &self.scene_ids
    }

    /// The bodies that take part, in the order in which they came to.
    pub fn node_list(&self) -> (nodes: &Vec<usize>)
        ensures
            nodes@ == self.nodes(),
    {
        &self.node_ids
    }

    /// The placement on record for `id`, if it takes part.
    pub fn placement(&self, id: usize) -> (placement: Option<Placement>)
        ensures
            self.matches(id, placement),
    {
        broadcast use vstd::std_specs::hash::group_hash_axioms;

        match self.node_records.get(&id) {
            Some(record) => Some(*record),
            None => None,
        }
    }

    /// The grid and the simulation of `scene_id`, if the world knows the scene.
    pub fn scene(&self, scene_id: usize) -> (found: Option<&SceneCollection>)
        ensures
            match found {
                Some(collection) => self.collections().contains_key(scene_id) && *collection
                    == self.collections()[scene_id],
                None => !self.collections().contains_key(scene_id),
            },
    {
        broadcast use vstd::std_specs::hash::group_hash_axioms;

        self.scene_collections.get(&scene_id)
    }

    /// Hands out the grid and the simulation of `scene_id` for a step; the world
    /// no longer knows the scene until they are put back.
    pub fn take_scene(&mut self, scene_id: usize) -> (taken: Option<SceneCollection>)
        requires
            old(self).wf(),
        ensures
            final(self).wf(),
            final(self).cell_size() == old(self).cell_size(),
            final(self).records() == old(self).records(),
            final(self).nodes() == old(self).nodes(),
            final(self).collections() == old(self).collections().remove(scene_id),
            match taken {
                Some(collection) => old(self).collections().contains_key(scene_id) && collection
                    == old(self).collections()[scene_id] && collection.grid.wf()
                    && collection.physics_system.wf(),
                None => !old(self).collections().contains_key(scene_id),
            },
    {
        broadcast use vstd::std_specs::hash::group_hash_axioms;

        let ghost known = self.collections();
        let ghost before = self.scene_ids@;
        let taken = self.scene_collections.remove(&scene_id);
        match position_of(&self.scene_ids, scene_id) {
            Some(at) => {
                self.scene_ids.remove(at);
                proof {
                    lemma_remove_one(before, at as int);
                }
            },
            None => {},
        }
        proof {
            assert(self.collections() =~= known.remove(scene_id));
            assert forall|scene: usize|
                self.scenes().contains(scene) <==> self.collections().contains_key(scene) by {
                assert(before.contains(scene) <==> known.contains_key(scene));
            }
            assert forall|scene: usize| #[trigger]
                self.collections().contains_key(scene) implies self.collections()[scene].grid.wf()
                && self.collections()[scene].physics_system.wf() by {
                assert(known.contains_key(scene));
            }
            assert(self.scenes_listed());
            assert(self.nodes_listed());
            assert(self.scenes_sound());
            if known.contains_key(scene_id) {
                assert(known[scene_id].grid.wf());
            }
        }
        taken
    }

    /// Puts the grid and the simulation of `scene_id` in place, in place of
    /// those that the world has for the scene, if it has any.
    pub fn put_scene(&mut self, scene_id: usize, collection: SceneCollection)
        requires
            old(self).wf(),
            collection.grid.wf(),
            collection.physics_system.wf(),
        ensures
            final(self).wf(),
            final(self).cell_size() == old(self).cell_size(),
            final(self).records() == old(self).records(),
            final(self).nodes() == old(self).nodes(),
            final(self).collections() == old(self).collections().insert(scene_id, collection),
    {
        broadcast use vstd::std_specs::hash::group_hash_axioms;

        let ghost known = self.collections();
        let ghost before = self.scene_ids@;
        if !self.scene_collections.contains_key(&scene_id) {
            self.scene_ids.push(scene_id);
            proof {
                assert(!before.contains(scene_id));
                assert(self.scenes().no_duplicates()) by {
                    assert forall|i: int, j: int|
                        0 <= i < self.scenes().len() && 0 <= j < self.scenes().len() && i
                            != j implies self.scenes()[i] != self.scenes()[j] by {
                        if i < before.len() {
                            assert(before.contains(self.scenes()[i]));
                        }
                        if j < before.len() {
                            assert(before.contains(self.scenes()[j]));
                        }
                    }
                }
            }
        }
        let ghost listed = self.scene_ids@;
        self.scene_collections.insert(scene_id, collection);
        proof {
            assert(self.collections() =~= known.insert(scene_id, collection));
            assert forall|scene: usize|
                self.scenes().contains(scene) <==> self.collections().contains_key(scene) by {
                assert(before.contains(scene) <==> known.contains_key(scene));
                if !known.contains_key(scene_id) {
                    vstd::seq_lib::lemma_seq_contains_after_push(before, scene_id, scene);
                }
            }
            assert forall|scene: usize| #[trigger]
                self.collections().contains_key(scene) implies self.collections()[scene].grid.wf()
                && self.collections()[scene].physics_system.wf() by {
                if scene != scene_id {
                    assert(known.contains_key(scene));
                }
            }
            assert(self.scenes_listed());
            assert(self.nodes_listed());
            assert(self.scenes_sound());
        }
    }

    /// Forgets every body that the store `nodes` no longer holds: afterwards
    /// every body in a grid or on record is a live item of the store.
    pub fn retain_live<T>(&mut self, nodes: &Arena<T>)
        requires
            old(self).wf(),
        ensures
            final(self).wf(),
            final(self).cell_size() == old(self).cell_size(),
            final(self).scenes() == old(self).scenes(),
            old(self).coherent() ==> final(self).coherent(),
            old(self).tight() ==> final(self).tight(),
            forall|id: usize| #[trigger]
                final(self).records().contains_key(id) <==> old(self).records().contains_key(id)
                    && nodes.slot(id) is Some,
            forall|id: usize| #[trigger]
                final(self).records().contains_key(id) ==> final(self).records()[id] == old(self).records()[id],
            forall|scene: usize, id: usize| #[trigger]
                final(self).grid_rects(scene).contains_key(id) <==> old(self).grid_rects(
                    scene,
                ).contains_key(id) && nodes.slot(id) is Some,
            forall|scene: usize, id: usize| #[trigger]
                final(self).grid_rects(scene).contains_key(id) ==> final(self).grid_rects(scene)[id]
                    == old(self).grid_rects(scene)[id],
    {
        let keep = |id: usize| -> (live: bool)
            ensures
                live == nodes.slot(id).is_some(),
            { nodes.contains(&ArenaId::new(id)) };
        self.retain_nodes(&keep);
    }
}

/// What a pass over a list of bodies makes of a world: a world in order, in
/// which every body of the list has the placement that the list gives for it,
/// provided the list names no body twice; and the same world as before where
/// every body had that placement already.
pub open spec fn brought_up_to_date(
    before: &PhysicsWorld,
    after: &PhysicsWorld,
    bodies: Seq<(usize, Option<Placement>)>,
) -> bool {
    &&& after.wf()
    &&& after.cell_size() == before.cell_size()
    &&& before.all_match(bodies) ==> after.same_as(before)
    &&& distinct_bodies(bodies) ==> after.all_match(bodies)
    &&& before.coherent() ==> after.coherent()
    &&& before.tight() ==> after.tight()
}

/// The grids hold the bodies of the list where the list places them and
/// nowhere else: in a world whose grids agree with the record and hold nothing
/// else, and that is up to date with a list of bodies, the grid of a scene
/// lists a body of the list exactly when the list gives it that scene and a
/// box, and then with that box.
pub proof fn lemma_synced_grids(
    world: &PhysicsWorld,
    bodies: Seq<(usize, Option<Placement>)>,
    k: int,
    scene: usize,
)
    requires
        world.coherent(),
        world.tight(),
        world.all_match(bodies),
        0 <= k < bodies.len(),
    ensures
        world.grid_rects(scene).contains_key(bodies[k].0) <==> (match bodies[k].1 {
            Some(p) => p.scene == scene,
            None => false,
        }),
        world.grid_rects(scene).contains_key(bodies[k].0) ==> world.grid_rects(scene)[bodies[k].0]
            == bodies[k].1->0.aabb,
{
    assert(world.matches(bodies[k].0, bodies[k].1));
}

/// The grid holds what was last seen: in a world whose grids agree with the
/// record and that is up to date with a list of bodies, every body of the list
/// that has a scene and a box has exactly that box in the grid of that scene.
pub proof fn lemma_synced_boxes(
    world: &PhysicsWorld,
    bodies: Seq<(usize, Option<Placement>)>,
    k: int,
)
    requires
        world.coherent(),
        world.all_match(bodies),
        0 <= k < bodies.len(),
        bodies[k].1 is Some,
    ensures
        world.grid_rects(bodies[k].1->0.scene).contains_key(bodies[k].0),
        world.grid_rects(bodies[k].1->0.scene)[bodies[k].0] == bodies[k].1->0.aabb,
{
    assert(world.matches(bodies[k].0, bodies[k].1));
}

/// Sync idempotence: a world that has been brought up to date with a list of
/// bodies, each named once, is not changed by a second pass over the same list:
/// no grid gains or loses a registration, and no placement changes.
pub proof fn lemma_sync_idempotent(
    start: &PhysicsWorld,
    synced: &PhysicsWorld,
    again: &PhysicsWorld,
    bodies: Seq<(usize, Option<Placement>)>,
)
    requires
        distinct_bodies(bodies),
        brought_up_to_date(start, synced, bodies),
        brought_up_to_date(synced, again, bodies),
    ensures
        again.same_as(synced),
{
}

/// Whether every box of the list lies within the limit of the collision arithmetic.
pub open spec fn placements_in_range(bodies: Seq<(usize, Option<Placement>)>) -> bool {
    forall|k: int|
        0 <= k < bodies.len() ==> ((#[trigger] bodies[k]).1 matches Some(p) ==> p.aabb.in_range())
}

/// Whether no body is named by two entries of the list.
pub open spec fn distinct_bodies(bodies: Seq<(usize, Option<Placement>)>) -> bool {
    forall|j: int, k: int| 0 <= j < k < bodies.len() ==> bodies[j].0 != bodies[k].0
}

/// Striking one entry from a list without repeats leaves a list without
/// repeats that holds the other entries and not the one struck.
pub proof fn lemma_remove_one(list: Seq<usize>, at: int)
    requires
        list.no_duplicates(),
        0 <= at < list.len(),
    ensures
        list.remove(at).no_duplicates(),
        forall|id: usize| #[trigger] list.remove(at).contains(id) <==> list.contains(id) && id != list[at],
{
    let out = list.remove(at);
    assert forall|id: usize| #[trigger] out.contains(id) <==> list.contains(id) && id != list[at] by {
        if list.contains(id) && id != list[at] {
            let k = choose|k: int| 0 <= k < list.len() && list[k] == id;
            if k < at {
                assert(out[k] == id);
            } else {
                assert(out[k - 1] == id);
            }
        }
        if out.contains(id) {
            let k = choose|k: int| 0 <= k < out.len() && out[k] == id;
            if k < at {
                assert(list[k] == id);
            } else {
                assert(list[k + 1] == id);
            }
        }
    }
    assert forall|i: int, j: int| 0 <= i < out.len() && 0 <= j < out.len() && i != j implies out[i]
        != out[j] by {
        let bi = if i < at { i } else { i + 1 };
        let bj = if j < at { j } else { j + 1 };
        assert(list[bi] == out[i]);
        assert(list[bj] == out[j]);
    }
}

} // verus!
