use vstd::prelude::*;
use std::collections::{HashMap, VecDeque};
use crate::entity_type::EntityType;
use crate::grid::{in_map, min_int, rect_cells};
use crate::pairs::{lemma_sorted_pairs, sort_pairs, sort_spots, sorted_pairs, sorted_spots};
use crate::map::Tile;
use crate::groups::{spec_is_full, Group, GroupState};
use crate::roles::Role;
use crate::vec2::{in_i32, manhattan, trunc_div, Vec2i};
use crate::entity_type::{spec_is_base, spec_type_index};
use crate::world::{
    first_fit, first_player_index, kind_count, last_index_of, lemma_first_fit_congruent, lemma_free_space_bounds,
    lemma_last_index_bounds, lemma_locks_after_push, lemma_picked_members, locks_after, map_after, relocked, rings, square_center, Entity,
    EntityQuery, World,
};
use crate::grid::rect_between;
use vstd::std_specs::iter::IteratorSpec;

verus! {

broadcast use vstd::std_specs::hash::group_hash_axioms;

/// How many builders the player aims for.
pub const TARGET_BUILDERS_COUNT: usize = 60;

/// How many pending tasks of each counted kind a task manager holds.
#[derive(Debug)]
pub struct TasksCount {
    pub build_builders: usize,
    pub build_house: usize,
    pub build_turret: usize,
    pub build_builder_base: usize,
    pub build_melee_base: usize,
    pub build_ranged_base: usize,
    pub gather_group: usize,
    pub repair_buildings: usize,
}

impl Default for TasksCount {
    fn default() -> (r: Self)
        ensures
            forall|k: int| 0 <= k < 8 ==> tally_of(r, k) == 0,
    {
        TasksCount {
            build_builders: 0,
            build_house: 0,
            build_turret: 0,
            build_builder_base: 0,
            build_melee_base: 0,
            build_ranged_base: 0,
            gather_group: 0,
            repair_buildings: 0,
        }
    }
}

/// What a task reports after a turn: it goes on, it is done, or it failed.
#[derive(Debug, Clone, Copy, PartialEq, Eq, Structural, PartialOrd, Ord)]
pub enum TaskStatus {
    Wait,
    Done,
    Fail,
}

/// Building one building of a kind: whether its cost is reserved and its place locked, where it
/// goes, who builds it and, once it stands, its id.
#[derive(Debug)]
pub struct BuildBuildingTask {
    entity_type: EntityType,
    resource_reserved: bool,
    place_locked: bool,
    position: Option<Vec2i>,
    builder_ids: Vec<i32>,
    building_id: Option<i32>,
}

impl BuildBuildingTask {
    pub closed spec fn spec_entity_type(self) -> EntityType {
        self.entity_type
    }

    /// Nothing is reserved, locked, placed, assigned or built yet.
    pub closed spec fn is_fresh(self) -> bool {
        &&& !self.resource_reserved
        &&& !self.place_locked
        &&& self.position is None
        &&& self.builder_ids@.len() == 0
        &&& self.building_id is None
    }

    pub fn new(entity_type: EntityType) -> (r: Self)
        ensures
            r.spec_entity_type() == entity_type,
            r.is_fresh(),
    {
        Self {
            entity_type,
            resource_reserved: false,
            place_locked: false,
            position: None,
            builder_ids: Vec::new(),
            building_id: None,
        }
    }
}

/// What a `BuildBuildingTask` holds.
pub struct BuildingTaskView {
    pub entity_type: EntityType,
    pub resource_reserved: bool,
    pub place_locked: bool,
    pub position: Option<Vec2i>,
    pub builder_ids: Seq<i32>,
    pub building_id: Option<i32>,
}

impl View for BuildBuildingTask {
    type V = BuildingTaskView;

    closed spec fn view(&self) -> BuildingTaskView {
        BuildingTaskView {
            entity_type: self.entity_type,
            resource_reserved: self.resource_reserved,
            place_locked: self.place_locked,
            position: self.position,
            builder_ids: self.builder_ids@,
            building_id: self.building_id,
        }
    }
}

/// A turn of a `BuildBuildingTask` as it goes: the task, the resource the world has requested,
/// the squares locked (`true`) or unlocked in turn, the roles, and the status once the turn ends.
pub struct BuildTurn {
    pub task: BuildingTaskView,
    pub requested: int,
    pub locks: Seq<(Vec2i, bool)>,
    pub roles: Map<i32, Role>,
    pub status: Option<TaskStatus>,
}

/// The entity that the world finds by id.
pub open spec fn entity_by_id(w: World, id: i32) -> Entity {
    w.spec_entities()[last_index_of(w.spec_entities(), id)]
}

/// The side of the square of an entity of kind `t`.
pub open spec fn kind_size(w: World, t: EntityType) -> int {
    w.spec_properties()[spec_type_index(t)].size as int
}

/// Whether every tile of the square of side `size` at `p` is empty.
pub open spec fn square_empty(w: World, p: Vec2i, size: int) -> bool {
    forall|c: Vec2i|
        #[trigger] rect_between(p, Vec2i { x: (p.x + size) as i32, y: (p.y + size) as i32 }).contains(c)
            ==> w.spec_map().view_tile(c) == Tile::Empty
}

/// The corners the world tries, in order, for a building of kind `t`.
pub open spec fn space_candidates(w: World, t: EntityType) -> Seq<Vec2i> {
    seq![w.space_start(t)] + rings(w.space_start(t), w.spec_protected_radius())
}

/// The roles once each of `ids` in turn has role `r`.
pub open spec fn set_roles(roles: Map<i32, Role>, ids: Seq<i32>, r: Role) -> Map<i32, Role>
    decreases ids.len(),
{
    if ids.len() == 0 {
        roles
    } else {
        set_roles(roles, ids.drop_last(), r).insert(ids.last(), r)
    }
}

/// For each active unit of `us` not among `ids` that has no role or harvests, in order: its
/// position and its id.
pub open spec fn spot_keys(roles: Map<i32, Role>, ids: Seq<i32>, us: Seq<Entity>) -> Seq<((i32, i32), i32)>
    decreases us.len(),
{
    if us.len() == 0 {
        Seq::empty()
    } else {
        let rest = spot_keys(roles, ids, us.drop_last());
        let u = us.last();
        if !ids.contains(u.id) && u.active && (roles[u.id] == Role::Idle || roles[u.id] is Harvester) {
            rest.push(((u.position.x, u.position.y), u.id))
        } else {
            rest
        }
    }
}

/// The start of a turn: the cost of the building is reserved unless it is or it stands; when
/// the player has no resource free, the task waits.
pub open spec fn bt_reserve(w: World, st: BuildTurn) -> BuildTurn {
    if st.task.building_id is None && !st.task.resource_reserved {
        if w.spec_my_resource() > 0 {
            BuildTurn {
                task: BuildingTaskView { resource_reserved: true, ..st.task },
                requested: st.requested + w.spec_entity_cost(st.task.entity_type),
                ..st
            }
        } else {
            BuildTurn { status: Some(TaskStatus::Wait), ..st }
        }
    } else {
        st
    }
}

/// A building of the kind standing on the chosen place becomes the task's building: its reserve
/// is released and its place unlocked.
pub open spec fn bt_found(w: World, st: BuildTurn) -> BuildTurn {
    if st.status is None && st.task.building_id is None && st.task.position is Some {
        let p = st.task.position->0;
        match w.spec_map().tile_at(p) {
            Tile::Entity(id) => if entity_by_id(w, id).entity_type == st.task.entity_type {
                BuildTurn {
                    task: BuildingTaskView {
                        building_id: Some(id),
                        resource_reserved: false,
                        place_locked: false,
                        ..st.task
                    },
                    requested: if st.task.resource_reserved {
                        st.requested - w.spec_entity_cost(st.task.entity_type)
                    } else {
                        st.requested
                    },
                    locks: st.locks.push((p, false)),
                    ..st
                }
            } else {
                st
            },
            _ => st,
        }
    } else {
        st
    }
}

/// A building the world no longer knows fails the task: its builders lose their role, its
/// reserve is released and its place unlocked if the task locked it.
pub open spec fn bt_lost(w: World, st: BuildTurn) -> BuildTurn {
    if st.status is None && st.task.building_id is Some && last_index_of(w.spec_entities(), st.task.building_id->0) < 0 {
        BuildTurn {
            roles: idled(st.roles, st.task.builder_ids),
            requested: if st.task.resource_reserved {
                st.requested - w.spec_entity_cost(st.task.entity_type)
            } else {
                st.requested
            },
            locks: if st.task.position is Some && st.task.place_locked {
                st.locks.push((st.task.position->0, false))
            } else {
                st.locks
            },
            status: Some(TaskStatus::Fail),
            ..st
        }
    } else {
        st
    }
}

/// Builders the world no longer knows leave the task; builders beyond `need` lose their role and
/// leave, the last first.
pub open spec fn bt_retain(w: World, st: BuildTurn, need: int) -> BuildTurn {
    if st.status is None {
        let ids = known_ids(w, st.task.builder_ids);
        if ids.len() > need {
            BuildTurn {
                task: BuildingTaskView { builder_ids: ids.take(need), ..st.task },
                roles: idled(st.roles, ids.skip(need).reverse()),
                ..st
            }
        } else {
            BuildTurn { task: BuildingTaskView { builder_ids: ids, ..st.task }, ..st }
        }
    } else {
        st
    }
}

/// A chosen place that is no longer empty, with nothing built there yet, is given up and
/// unlocked.
pub open spec fn bt_clear(w: World, st: BuildTurn) -> BuildTurn {
    if st.status is None && st.task.building_id is None && st.task.position is Some && !square_empty(
        w,
        st.task.position->0,
        kind_size(w, st.task.entity_type),
    ) {
        BuildTurn {
            task: BuildingTaskView { position: None, place_locked: false, ..st.task },
            locks: st.locks.push((st.task.position->0, false)),
            ..st
        }
    } else {
        st
    }
}

/// With a place, enough builders and nothing built yet, the task waits.
pub open spec fn bt_ready(st: BuildTurn, need: int) -> BuildTurn {
    if st.status is None && st.task.position is Some && need <= st.task.builder_ids.len() && st.task.building_id is None {
        BuildTurn { status: Some(TaskStatus::Wait), ..st }
    } else {
        st
    }
}

/// A building that is active ends the task: its builders lose their role and a reserve left is
/// released.
pub open spec fn bt_done(w: World, st: BuildTurn) -> BuildTurn {
    if st.status is None && st.task.building_id is Some && entity_by_id(w, st.task.building_id->0).active {
        BuildTurn {
            roles: idled(st.roles, st.task.builder_ids),
            requested: if st.task.resource_reserved {
                st.requested - w.spec_entity_cost(st.task.entity_type)
            } else {
                st.requested
            },
            status: Some(TaskStatus::Done),
            ..st
        }
    } else {
        st
    }
}

/// Without a place, the task takes the first place where the building fits on the map as the
/// locks now stand, and locks it.
pub open spec fn bt_place(w: World, st: BuildTurn) -> BuildTurn {
    if st.status is None && st.task.position is None {
        let t = st.task.entity_type;
        let size = kind_size(w, t);
        let found = first_fit(map_after(w.spec_map(), st.locks, size), space_candidates(w, t), size, t == EntityType::House);
        match found {
            Some(p) => BuildTurn {
                task: BuildingTaskView { position: found, place_locked: true, ..st.task },
                locks: st.locks.push((p, true)),
                ..st
            },
            None => BuildTurn { task: BuildingTaskView { position: None, ..st.task }, ..st },
        }
    } else {
        st
    }
}

/// With a place and too few builders, the task takes the free builders first by position, then
/// by id, up to `need`.
pub open spec fn bt_enlist(w: World, st: BuildTurn, need: int) -> BuildTurn {
    if st.status is None && st.task.position is Some && need > st.task.builder_ids.len() {
        let cands = sorted_spots(spot_keys(st.roles, st.task.builder_ids, w.selected(EntityQuery::MyBuilderUnits)));
        let k = min_int(need - st.task.builder_ids.len(), cands.len() as int);
        BuildTurn {
            task: BuildingTaskView {
                builder_ids: st.task.builder_ids + cands.take(k).map_values(|c: ((i32, i32), i32)| c.1),
                ..st.task
            },
            ..st
        }
    } else {
        st
    }
}

/// The end of a turn: with a place, each builder repairs the building if it stands, or else
/// builds it there; the task waits.
pub open spec fn bt_assign(st: BuildTurn) -> BuildTurn {
    if st.status is None {
        BuildTurn {
            roles: match st.task.position {
                Some(p) => set_roles(
                    st.roles,
                    st.task.builder_ids,
                    match st.task.building_id {
                        Some(b) => Role::BuildingRepairer { building_id: b, need_resources: false },
                        None => Role::BuildingBuilder { position: p, entity_type: st.task.entity_type },
                    },
                ),
                None => st.roles,
            },
            status: Some(TaskStatus::Wait),
            ..st
        }
    } else {
        st
    }
}

/// The turn up to taking a place.
pub open spec fn turn_before_place(task: BuildingTaskView, w: World, roles: Map<i32, Role>, need: int) -> BuildTurn {
    let st0 = BuildTurn { task, requested: w.spec_requested() as int, locks: Seq::empty(), roles, status: None };
    bt_done(w, bt_ready(bt_clear(w, bt_retain(w, bt_lost(w, bt_found(w, bt_reserve(w, st0))), need)), need))
}

/// A whole turn of the task, with `need` builders wanted.
pub open spec fn build_turn(task: BuildingTaskView, w: World, roles: Map<i32, Role>, need: int) -> BuildTurn {
    bt_assign(bt_enlist(w, bt_place(w, turn_before_place(task, w, roles, need)), need))
}

/// Whether the task, the world and the roles stand where the turn `st` says, from the world `w`
/// at its start.
pub open spec fn turn_holds(task: BuildingTaskView, world: World, roles: Map<i32, Role>, w: World, st: BuildTurn) -> bool {
    &&& task == st.task
    &&& world.wf()
    &&& world.spec_requested() == st.requested
    &&& world.same_but_requests_and_locks(w)
    &&& relocked(world.spec_map(), w.spec_map(), st.locks, kind_size(w, st.task.entity_type))
    &&& roles == st.roles
}

/// The ids of `ids` that the world knows, in order.
fn keep_known(world: &World, ids: &Vec<i32>) -> (r: Vec<i32>)
    requires
        world.wf(),
    ensures
        r@ == known_ids(*world, ids@),
{
    let mut kept: Vec<i32> = Vec::new();
    let mut i: usize = 0;
    while i < ids.len()
        invariant
            world.wf(),
            i <= ids.len(),
            kept@ == known_ids(*world, ids@.take(i as int)),
        decreases ids.len() - i,
    {
        proof {
            assert(ids@.take(i + 1).drop_last() =~= ids@.take(i as int));
        }
        if world.contains_entity(ids[i]) {
            kept.push(ids[i]);
        }
        i = i + 1;
    }
    proof {
        assert(ids@.take(ids.len() as int) =~= ids@);
    }
    kept
}

/// Each of `ids` in turn takes the role `r`.
fn set_all(roles: &mut HashMap<i32, Role>, ids: &Vec<i32>, r: Role)
    ensures
        final(roles)@ == set_roles(old(roles)@, ids@, r),
{
    let ghost r0 = roles@;
    let mut i: usize = 0;
    while i < ids.len()
        invariant
            i <= ids.len(),
            roles@ == set_roles(r0, ids@.take(i as int), r),
        decreases ids.len() - i,
    {
        proof {
            assert(ids@.take(i + 1).drop_last() =~= ids@.take(i as int));
        }
        roles.insert(ids[i], r);
        i = i + 1;
    }
    proof {
        assert(ids@.take(ids.len() as int) =~= ids@);
    }
}

/// Each of `ids` in turn loses its role.
fn idle_all(roles: &mut HashMap<i32, Role>, ids: &Vec<i32>)
    ensures
        final(roles)@ == idled(old(roles)@, ids@),
{
    let ghost r0 = roles@;
    let mut i: usize = 0;
    while i < ids.len()
        invariant
            i <= ids.len(),
            roles@ == idled(r0, ids@.take(i as int)),
        decreases ids.len() - i,
    {
        proof {
            assert(ids@.take(i + 1).drop_last() =~= ids@.take(i as int));
        }
        roles.insert(ids[i], Role::Idle);
        i = i + 1;
    }
    proof {
        assert(ids@.take(ids.len() as int) =~= ids@);
    }
}

/// For each active unit not among `ids` that has no role or harvests: its position and id.
fn free_spots(roles: &HashMap<i32, Role>, ids: &Vec<i32>, units: &Vec<Entity>) -> (r: Vec<((i32, i32), i32)>)
    requires
        forall|k: int| 0 <= k < units.len() ==> roles@.dom().contains(#[trigger] units@[k].id),
    ensures
        r@ == spot_keys(roles@, ids@, units@),
{
    let mut out: Vec<((i32, i32), i32)> = Vec::new();
    let mut i: usize = 0;
    while i < units.len()
        invariant
            forall|k: int| 0 <= k < units.len() ==> roles@.dom().contains(#[trigger] units@[k].id),
            i <= units.len(),
            out@ == spot_keys(roles@, ids@, units@.take(i as int)),
        decreases units.len() - i,
    {
        proof {
            assert(units@.take(i + 1).drop_last() =~= units@.take(i as int));
            assert(roles@.dom().contains(units@[i as int].id));
        }
        let u = units[i];
        if !vec_contains(ids, u.id) && u.active {
            let free = match *roles.get(&u.id).unwrap() {
                Role::Idle => true,
                Role::Harvester { .. } => true,
                _ => false,
            };
            if free {
                out.push(((u.position.x, u.position.y), u.id));
            }
        }
        i = i + 1;
    }
    proof {
        assert(units@.take(units.len() as int) =~= units@);
    }
    out
}

/// What the phases of a turn need of the world `w` at its start.
pub open spec fn turn_bounds(w: World, st: BuildTurn) -> bool {
    let t = st.task.entity_type;
    &&& w.wf()
    &&& in_i32(w.spec_entity_cost(t))
    &&& st.task.position matches Some(p) ==> {
        &&& w.spec_map().spec_contains(p)
        &&& in_i32(p.x + kind_size(w, t))
        &&& in_i32(p.y + kind_size(w, t))
    }
}

/// Whether the task and the world stand where the turn `st` says, from the world `w` at its
/// start.
pub open spec fn task_holds(task: BuildingTaskView, world: World, w: World, st: BuildTurn) -> bool {
    &&& task == st.task
    &&& world.wf()
    &&& world.spec_requested() == st.requested
    &&& world.same_but_requests_and_locks(w)
    &&& relocked(world.spec_map(), w.spec_map(), st.locks, kind_size(w, st.task.entity_type))
}

impl BuildBuildingTask {
    fn phase_found(&mut self, world: &mut World, cost: i32, size: i32, Ghost(w): Ghost<World>, Ghost(st): Ghost<BuildTurn>)
        requires
            task_holds(old(self)@, *old(world), w, st),
            turn_bounds(w, st),
            st.status is None,
            cost == w.spec_entity_cost(st.task.entity_type),
            size == kind_size(w, st.task.entity_type),
            st.task.resource_reserved && st.task.building_id is None ==> in_i32(st.requested - cost),
            st.task.position matches Some(p) ==> (w.spec_map().tile_at(p) matches Tile::Entity(id) ==> last_index_of(
                w.spec_entities(),
                id,
            ) >= 0),
        ensures
            task_holds(final(self)@, *final(world), w, bt_found(w, st)),
    {
        proof {
            lemma_locks_after_push(w.spec_map(), st.locks, size as int);
        }
        if self.building_id.is_none() && self.position.is_some() {
            let position = self.position.unwrap();
            match world.get_tile(position) {
                Tile::Entity(entity_id) => {
                    if world.get_entity(entity_id).entity_type == self.entity_type {
                        self.building_id = Some(entity_id);
                        if self.resource_reserved {
                            world.release_requested_resource(cost);
                            self.resource_reserved = false;
                        }
                        world.unlock_square(position, size);
                        self.place_locked = false;
                    }
                },
                _ => {},
            }
        }
    }

    fn phase_lost(&mut self, world: &mut World, roles: &mut HashMap<i32, Role>, cost: i32, size: i32, Ghost(w): Ghost<World>, Ghost(st): Ghost<BuildTurn>) -> (failed: bool)
        requires
            task_holds(old(self)@, *old(world), w, st),
            old(roles)@ == st.roles,
            turn_bounds(w, st),
            st.status is None,
            cost == w.spec_entity_cost(st.task.entity_type),
            size == kind_size(w, st.task.entity_type),
            st.task.resource_reserved ==> in_i32(st.requested - cost),
        ensures
            task_holds(final(self)@, *final(world), w, bt_lost(w, st)),
            final(roles)@ == bt_lost(w, st).roles,
            failed == (bt_lost(w, st).status is Some),
    {
        proof {
            lemma_locks_after_push(w.spec_map(), st.locks, size as int);
        }
        if self.building_id.is_some() {
            let building_id = self.building_id.unwrap();
            if world.find_entity(building_id).is_none() {
                idle_all(roles, &self.builder_ids);
                if self.resource_reserved {
                    world.release_requested_resource(cost);
                }
                if self.position.is_some() && self.place_locked {
                    world.unlock_square(self.position.unwrap(), size);
                }
                return true;
            }
        }
        false
    }

    fn phase_retain(&mut self, world: &World, roles: &mut HashMap<i32, Role>, need: usize, Ghost(w): Ghost<World>, Ghost(st): Ghost<BuildTurn>)
        requires
            task_holds(old(self)@, *world, w, st),
            old(roles)@ == st.roles,
            st.status is None,
        ensures
            task_holds(final(self)@, *world, w, bt_retain(w, st, need as int)),
            final(roles)@ == bt_retain(w, st, need as int).roles,
    {
        proof {
            lemma_known_ids_same(*world, w, self.builder_ids@);
        }
        let kept = keep_known(world, &self.builder_ids);
        self.builder_ids = kept;
        let ghost ids1 = self.builder_ids@;
        let ghost roles1 = roles@;
        let ghost need_i = need as int;
        while self.builder_ids.len() > need
            invariant
                ids1.len() > need_i ==> {
                    &&& need_i <= self.builder_ids@.len() <= ids1.len()
                    &&& self.builder_ids@ == ids1.take(self.builder_ids@.len() as int)
                    &&& roles@ == idled(roles1, ids1.skip(self.builder_ids@.len() as int).reverse())
                },
                ids1.len() <= need_i ==> self.builder_ids@ == ids1 && roles@ == roles1,
                need_i == need,
                self.entity_type == st.task.entity_type,
                self.position == st.task.position,
                self.building_id == st.task.building_id,
                self.resource_reserved == st.task.resource_reserved,
                self.place_locked == st.task.place_locked,
            decreases self.builder_ids.len(),
        {
            let ghost n = self.builder_ids@.len();
            let id = self.builder_ids.pop().unwrap();
            roles.insert(id, Role::Idle);
            proof {
                assert(ids1.take(n - 1) =~= ids1.take(n as int).drop_last());
                assert(ids1.skip(n - 1).reverse().drop_last() =~= ids1.skip(n as int).reverse());
                assert(ids1.skip(n - 1).reverse().last() == ids1[n - 1]);
            }
        }
        proof {
            if ids1.len() > need_i {
                assert(self.builder_ids@.len() == need_i);
            }
        }
    }

    fn phase_clear(&mut self, world: &mut World, size: i32, Ghost(w): Ghost<World>, Ghost(st): Ghost<BuildTurn>)
        requires
            task_holds(old(self)@, *old(world), w, st),
            turn_bounds(w, st),
            st.status is None,
            size == kind_size(w, st.task.entity_type),
        ensures
            task_holds(final(self)@, *final(world), w, bt_clear(w, st)),
    {
        proof {
            lemma_locks_after_push(w.spec_map(), st.locks, size as int);
        }
        if self.position.is_some() && self.building_id.is_none() {
            let position = self.position.unwrap();
            if !world.is_empty_square(position, size) {
                self.position = None;
                world.unlock_square(position, size);
                self.place_locked = false;
            }
        }
    }

    fn phase_done(&mut self, world: &mut World, roles: &mut HashMap<i32, Role>, cost: i32, Ghost(w): Ghost<World>, Ghost(st): Ghost<BuildTurn>) -> (done: bool)
        requires
            task_holds(old(self)@, *old(world), w, st),
            old(roles)@ == st.roles,
            turn_bounds(w, st),
            st.status is None,
            cost == w.spec_entity_cost(st.task.entity_type),
            st.task.resource_reserved ==> in_i32(st.requested - cost),
            st.task.building_id matches Some(b) ==> last_index_of(w.spec_entities(), b) >= 0,
        ensures
            task_holds(final(self)@, *final(world), w, bt_done(w, st)),
            final(roles)@ == bt_done(w, st).roles,
            done == (bt_done(w, st).status is Some),
    {
        if self.building_id.is_some() {
            let building_id = self.building_id.unwrap();
            if world.get_entity(building_id).active {
                idle_all(roles, &self.builder_ids);
                if self.resource_reserved {
                    world.release_requested_resource(cost);
                }
                return true;
            }
        }
        false
    }

    fn phase_place(&mut self, world: &mut World, size: i32, Ghost(w): Ghost<World>, Ghost(st): Ghost<BuildTurn>)
        requires
            task_holds(old(self)@, *old(world), w, st),
            turn_bounds(w, st),
            st.status is None,
            size == kind_size(w, st.task.entity_type),
            st.task.position is None ==> w.space_fits(st.task.entity_type),
        ensures
            task_holds(final(self)@, *final(world), w, bt_place(w, st)),
            turn_bounds(w, bt_place(w, st)),
    {
        let ghost t = st.task.entity_type;
        proof {
            lemma_locks_after_push(w.spec_map(), st.locks, size as int);
        }
        if self.position.is_none() {
            let ghost mid = *world;
            let found = world.find_free_space_for(&self.entity_type);
            proof {
                let m2 = map_after(w.spec_map(), st.locks, size as int);
                assert(relocked(mid.spec_map(), w.spec_map(), st.locks, size as int));
                assert(relocked(m2, w.spec_map(), st.locks, size as int));
                lemma_first_fit_congruent(m2, mid.spec_map(), space_candidates(w, t), size as int, t == EntityType::House);
                assert(space_candidates(mid, t) == space_candidates(w, t));
                lemma_free_space_bounds(w, mid.spec_map(), t);
            }
            self.position = found;
            if found.is_some() {
                world.lock_square(found.unwrap(), size);
                self.place_locked = true;
            }
        }
    }

    fn phase_enlist(&mut self, world: &World, roles: &HashMap<i32, Role>, need: usize, Ghost(w): Ghost<World>, Ghost(st): Ghost<BuildTurn>)
        requires
            task_holds(old(self)@, *world, w, st),
            roles@ == st.roles,
            st.status is None,
            st.task.position is Some && need > st.task.builder_ids.len() ==> forall|k: int|
                0 <= k < w.selected(EntityQuery::MyBuilderUnits).len() ==> roles@.dom().contains(
                    #[trigger] w.selected(EntityQuery::MyBuilderUnits)[k].id,
                ),
        ensures
            task_holds(final(self)@, *world, w, bt_enlist(w, st, need as int)),
    {
        if self.position.is_some() && need > self.builder_ids.len() {
            let units = world.my_builder_units();
            let mut spots = free_spots(roles, &self.builder_ids, &units);
            sort_spots(&mut spots);
            let want = need - self.builder_ids.len();
            let k = if want <= spots.len() { want } else { spots.len() };
            let ghost ids2 = self.builder_ids@;
            let mut j: usize = 0;
            while j < k
                invariant
                    k <= spots.len(),
                    j <= k,
                    self.builder_ids@ == ids2 + spots@.take(j as int).map_values(|c: ((i32, i32), i32)| c.1),
                    self.entity_type == st.task.entity_type,
                    self.position == st.task.position,
                    self.building_id == st.task.building_id,
                    self.resource_reserved == st.task.resource_reserved,
                    self.place_locked == st.task.place_locked,
                decreases k - j,
            {
                self.builder_ids.push(spots[j].1);
                proof {
                    assert(spots@.take(j + 1).map_values(|c: ((i32, i32), i32)| c.1) =~= spots@.take(j as int).map_values(
                        |c: ((i32, i32), i32)| c.1,
                    ).push(spots@[j as int].1));
                }
                j = j + 1;
            }
        }
    }

    /// A turn of building: see the phases `bt_reserve` to `bt_assign`. `builders_count` is the
    /// number of builders the task wants this turn.
    pub fn update(&mut self, world: &mut World, roles: &mut HashMap<i32, Role>, builders_count: usize) -> (r: TaskStatus)
        requires
            old(world).wf(),
            old(world).my_resource_defined(),
            in_i32(old(world).spec_entity_cost(old(self)@.entity_type)),
            old(self)@.building_id is None && !old(self)@.resource_reserved ==> in_i32(
                old(world).spec_requested() + old(world).spec_entity_cost(old(self)@.entity_type),
            ),
            old(self)@.resource_reserved ==> in_i32(
                old(world).spec_requested() - old(world).spec_entity_cost(old(self)@.entity_type),
            ),
            old(self)@.position matches Some(p) ==> {
                &&& old(world).spec_map().spec_contains(p)
                &&& in_i32(p.x + kind_size(*old(world), old(self)@.entity_type))
                &&& in_i32(p.y + kind_size(*old(world), old(self)@.entity_type))
                &&& old(world).spec_map().tile_at(p) matches Tile::Entity(id) ==> last_index_of(
                    old(world).spec_entities(),
                    id,
                ) >= 0
            },
            ({
                let st = turn_before_place(old(self)@, *old(world), old(roles)@, builders_count as int);
                st.status is None && st.task.position is None ==> old(world).space_fits(old(self)@.entity_type)
            }),
            ({
                let st = bt_place(
                    *old(world),
                    turn_before_place(old(self)@, *old(world), old(roles)@, builders_count as int),
                );
                st.status is None && st.task.position is Some && builders_count > st.task.builder_ids.len() ==> forall|k: int|
                    0 <= k < old(world).selected(EntityQuery::MyBuilderUnits).len() ==> old(roles)@.dom().contains(
                        #[trigger] old(world).selected(EntityQuery::MyBuilderUnits)[k].id,
                    )
            }),
        ensures
            final(self)@ == build_turn(old(self)@, *old(world), old(roles)@, builders_count as int).task,
            final(roles)@ == build_turn(old(self)@, *old(world), old(roles)@, builders_count as int).roles,
            Some(r) == build_turn(old(self)@, *old(world), old(roles)@, builders_count as int).status,
            final(world).spec_requested() == build_turn(
                old(self)@,
                *old(world),
                old(roles)@,
                builders_count as int,
            ).requested,
            final(world).same_but_requests_and_locks(*old(world)),
            relocked(
                final(world).spec_map(),
                old(world).spec_map(),
                build_turn(old(self)@, *old(world), old(roles)@, builders_count as int).locks,
                kind_size(*old(world), old(self)@.entity_type),
            ),
    {
        let ghost w = *world;
        let ghost need = builders_count as int;
        let ghost task0 = self@;
        let ghost roles0 = roles@;
        let ghost st0 = BuildTurn { task: self@, requested: w.spec_requested() as int, locks: Seq::empty(), roles: roles@, status: None };
        let size = world.get_entity_properties(&self.entity_type).size;
        let cost = world.get_entity_cost(&self.entity_type);
        if self.building_id.is_none() && !self.resource_reserved {
            if !world.try_request_resources(cost) {
                return TaskStatus::Wait;
            }
            self.resource_reserved = true;
        }
        let ghost st1 = bt_reserve(w, st0);
        proof {
            assert(relocked(world.spec_map(), w.spec_map(), st1.locks, size as int));
            assert(task_holds(self@, *world, w, st1));
        }
        self.phase_found(world, cost, size, Ghost(w), Ghost(st1));
        let ghost st2 = bt_found(w, st1);
        if self.phase_lost(world, roles, cost, size, Ghost(w), Ghost(st2)) {
            return TaskStatus::Fail;
        }
        let ghost st3 = bt_lost(w, st2);
        self.phase_retain(world, roles, builders_count, Ghost(w), Ghost(st3));
        let ghost st4 = bt_retain(w, st3, need);
        self.phase_clear(world, size, Ghost(w), Ghost(st4));
        let ghost st5 = bt_clear(w, st4);
        if self.position.is_some() && builders_count <= self.builder_ids.len() && self.building_id.is_none() {
            return TaskStatus::Wait;
        }
        let ghost st6 = bt_ready(st5, need);
        if self.phase_done(world, roles, cost, Ghost(w), Ghost(st6)) {
            return TaskStatus::Done;
        }
        let ghost st7 = bt_done(w, st6);
        proof {
            assert(st7 == turn_before_place(task0, w, roles0, need));
        }
        self.phase_place(world, size, Ghost(w), Ghost(st7));
        let ghost st8 = bt_place(w, st7);
        self.phase_enlist(world, roles, builders_count, Ghost(w), Ghost(st8));
        let ghost st9 = bt_enlist(w, st8, need);
        if self.position.is_some() {
            let position = self.position.unwrap();
            let role = match self.building_id {
                Some(b) => Role::BuildingRepairer { building_id: b, need_resources: false },
                None => Role::BuildingBuilder { position, entity_type: self.entity_type },
            };
            set_all(roles, &self.builder_ids, role);
        }
        TaskStatus::Wait
    }
}

/// Gathering the units of a group.
#[derive(Debug)]
pub struct GatherGroupTask {
    group_id: u32,
}

impl GatherGroupTask {
    pub closed spec fn spec_group_id(self) -> u32 {
        self.group_id
    }

    pub fn new(group_id: u32) -> (r: Self)
        ensures
            r.spec_group_id() == group_id,
    {
        Self { group_id }
    }
}

/// Building a number of units of a kind; `left` tells how many are still to come.
#[derive(Debug)]
pub struct BuildUnitsTask {
    entity_type: EntityType,
    left: usize,
}

impl BuildUnitsTask {
    pub closed spec fn spec_entity_type(self) -> EntityType {
        self.entity_type
    }

    pub closed spec fn spec_left(self) -> usize {
        self.left
    }

    pub fn new(entity_type: EntityType, count: usize) -> (r: Self)
        ensures
            r.spec_entity_type() == entity_type,
            r.spec_left() == count,
    {
        Self { entity_type, left: count }
    }
}

/// Clearing the resources from the square of side `size` at `position`, with the builders
/// assigned to it.
#[derive(Debug)]
pub struct ClearAreaTask {
    position: Vec2i,
    size: i32,
    builder_ids: Vec<i32>,
}

impl ClearAreaTask {
    pub closed spec fn spec_position(self) -> Vec2i {
        self.position
    }

    pub closed spec fn spec_size(self) -> i32 {
        self.size
    }

    pub closed spec fn spec_builder_ids(self) -> Seq<i32> {
        self.builder_ids@
    }

    pub fn new(position: Vec2i, size: i32) -> (r: Self)
        ensures
            r.spec_position() == position,
            r.spec_size() == size,
            r.spec_builder_ids() == Seq::<i32>::empty(),
    {
        Self { position, size, builder_ids: Vec::new() }
    }
}

/// A task of the bot.
#[derive(Debug)]
pub enum Task {
    HarvestResources,
    BuildBuilders,
    RepairBuildings,
    BuildBuilding(BuildBuildingTask),
    GatherGroup(GatherGroupTask),
    BuildUnits(BuildUnitsTask),
    ClearArea(ClearAreaTask),
}

impl Task {
    pub fn build_building(entity_type: EntityType) -> (r: Self)
        ensures
            r matches Task::BuildBuilding(t) && t.spec_entity_type() == entity_type && t.is_fresh(),
    {
        Self::BuildBuilding(BuildBuildingTask::new(entity_type))
    }

    pub fn gather_group(group_id: u32) -> (r: Self)
        ensures
            r matches Task::GatherGroup(t) && t.spec_group_id() == group_id,
    {
        Self::GatherGroup(GatherGroupTask::new(group_id))
    }

    pub fn build_units(entity_type: EntityType, count: usize) -> (r: Self)
        ensures
            r matches Task::BuildUnits(t) && t.spec_entity_type() == entity_type && t.spec_left() == count,
    {
        Self::BuildUnits(BuildUnitsTask::new(entity_type, count))
    }

    pub fn clear_area(position: Vec2i, size: i32) -> (r: Self)
        ensures
            r matches Task::ClearArea(t) && t.spec_position() == position && t.spec_size() == size && t.spec_builder_ids()
                == Seq::<i32>::empty(),
    {
        Self::ClearArea(ClearAreaTask::new(position, size))
    }
}

/// Which tally of `TasksCount` a task counts in: 0 building builders; 1 to 5 building a house,
/// a turret, a builder base, a melee base, a ranged base; 6 gathering a group; 7 repairing
/// buildings; -1 none.
pub open spec fn tally_index(t: Task) -> int {
    match t {
        Task::BuildBuilders => 0,
        Task::BuildBuilding(b) => match b.spec_entity_type() {
            EntityType::House => 1,
            EntityType::Turret => 2,
            EntityType::BuilderBase => 3,
            EntityType::MeleeBase => 4,
            EntityType::RangedBase => 5,
            _ => -1,
        },
        Task::GatherGroup(_) => 6,
        Task::RepairBuildings => 7,
        _ => -1,
    }
}

/// Tally `k` of `c`, in the order of `tally_index`.
pub open spec fn tally_of(c: TasksCount, k: int) -> int {
    if k == 0 {
        c.build_builders as int
    } else if k == 1 {
        c.build_house as int
    } else if k == 2 {
        c.build_turret as int
    } else if k == 3 {
        c.build_builder_base as int
    } else if k == 4 {
        c.build_melee_base as int
    } else if k == 5 {
        c.build_ranged_base as int
    } else if k == 6 {
        c.gather_group as int
    } else {
        c.repair_buildings as int
    }
}

/// How many of `ts` count in tally `k`.
pub open spec fn count_tally(ts: Seq<Task>, k: int) -> nat
    decreases ts.len(),
{
    if ts.len() == 0 {
        0
    } else {
        count_tally(ts.drop_last(), k) + if tally_index(ts.last()) == k {
            1nat
        } else {
            0nat
        }
    }
}

/// Counting over two runs of tasks adds up.
pub proof fn lemma_count_concat(a: Seq<Task>, b: Seq<Task>, k: int)
    ensures
        count_tally(a + b, k) == count_tally(a, k) + count_tally(b, k),
    decreases b.len(),
{
    if b.len() == 0 {
        assert(a + b =~= a);
    } else {
        assert((a + b).drop_last() =~= a + b.drop_last());
        assert((a + b).last() == b.last());
        lemma_count_concat(a, b.drop_last(), k);
    }
}

/// A tally never counts more tasks than there are.
proof fn lemma_count_bound(ts: Seq<Task>, k: int)
    ensures
        count_tally(ts, k) <= ts.len(),
    decreases ts.len(),
{
    if ts.len() > 0 {
        lemma_count_bound(ts.drop_last(), k);
    }
}

/// Which tally `task` counts in (`tally_index`).
fn task_tally(task: &Task) -> (r: i8)
    ensures
        r == tally_index(*task),
{
    match task {
        Task::BuildBuilders => 0,
        Task::BuildBuilding(b) => match b.entity_type {
            EntityType::House => 1,
            EntityType::Turret => 2,
            EntityType::BuilderBase => 3,
            EntityType::MeleeBase => 4,
            EntityType::RangedBase => 5,
            _ => -1,
        },
        Task::GatherGroup(_) => 6,
        Task::RepairBuildings => 7,
        _ => -1,
    }
}

/// Adds one to tally `k` of `c`, or nothing when `k` names no tally.
fn count_up(c: &mut TasksCount, k: i8)
    requires
        0 <= k < 8 ==> tally_of(*old(c), k as int) < usize::MAX,
    ensures
        forall|j: int| 0 <= j < 8 ==> tally_of(*final(c), j) == tally_of(*old(c), j) + if j == k { 1int } else { 0int },
{
    if k == 0 {
        c.build_builders = c.build_builders + 1;
    } else if k == 1 {
        c.build_house = c.build_house + 1;
    } else if k == 2 {
        c.build_turret = c.build_turret + 1;
    } else if k == 3 {
        c.build_builder_base = c.build_builder_base + 1;
    } else if k == 4 {
        c.build_melee_base = c.build_melee_base + 1;
    } else if k == 5 {
        c.build_ranged_base = c.build_ranged_base + 1;
    } else if k == 6 {
        c.gather_group = c.gather_group + 1;
    } else if k == 7 {
        c.repair_buildings = c.repair_buildings + 1;
    }
}

/// Takes one from tally `k` of `c`, or nothing when `k` names no tally.
fn count_down(c: &mut TasksCount, k: i8)
    requires
        0 <= k < 8 ==> tally_of(*old(c), k as int) > 0,
    ensures
        forall|j: int| 0 <= j < 8 ==> tally_of(*final(c), j) == tally_of(*old(c), j) - if j == k { 1int } else { 0int },
{
    if k == 0 {
        c.build_builders = c.build_builders - 1;
    } else if k == 1 {
        c.build_house = c.build_house - 1;
    } else if k == 2 {
        c.build_turret = c.build_turret - 1;
    } else if k == 3 {
        c.build_builder_base = c.build_builder_base - 1;
    } else if k == 4 {
        c.build_melee_base = c.build_melee_base - 1;
    } else if k == 5 {
        c.build_ranged_base = c.build_ranged_base - 1;
    } else if k == 6 {
        c.gather_group = c.gather_group - 1;
    } else if k == 7 {
        c.repair_buildings = c.repair_buildings - 1;
    }
}

/// The tasks of `m` under the ids of `ids`, in that order.
pub open spec fn tasks_of(ids: Seq<usize>, m: Map<usize, Task>) -> Seq<Task> {
    ids.map_values(|id: usize| m[id])
}

/// The ids of `ids` whose status in `statuses` is `Wait`, in their order.
pub open spec fn waiting(ids: Seq<usize>, statuses: Seq<TaskStatus>) -> Seq<usize>
    decreases ids.len(),
{
    if ids.len() == 0 {
        ids
    } else {
        let rest = waiting(ids.drop_last(), statuses.take(ids.len() - 1));
        if statuses[ids.len() - 1] == TaskStatus::Wait {
            rest.push(ids.last())
        } else {
            rest
        }
    }
}

/// The tasks of `ts` whose status in `statuses` is `Wait`, in their order.
pub open spec fn waiting_tasks(ts: Seq<Task>, statuses: Seq<TaskStatus>) -> Seq<Task>
    decreases ts.len(),
{
    if ts.len() == 0 {
        ts
    } else {
        let rest = waiting_tasks(ts.drop_last(), statuses.take(ts.len() - 1));
        if statuses[ts.len() - 1] == TaskStatus::Wait {
            rest.push(ts.last())
        } else {
            rest
        }
    }
}

/// No id occurs twice in `s`.
pub open spec fn distinct_ids(s: Seq<usize>) -> bool {
    forall|i: int, j: int| 0 <= i < j < s.len() ==> #[trigger] s[i] != #[trigger] s[j]
}

/// The waiting ids are ids of `ids`, and no two are the same when no two of `ids` are.
proof fn lemma_waiting_members(ids: Seq<usize>, statuses: Seq<TaskStatus>)
    requires
        statuses.len() == ids.len(),
    ensures
        forall|x: usize| waiting(ids, statuses).contains(x) ==> ids.contains(x),
        distinct_ids(ids) ==> distinct_ids(waiting(ids, statuses)),
        waiting(ids, statuses).len() <= ids.len(),
    decreases ids.len(),
{
    if ids.len() > 0 {
        let n = ids.len() - 1;
        let front = ids.drop_last();
        let st = statuses.take(n as int);
        lemma_waiting_members(front, st);
        let rest = waiting(front, st);
        assert forall|x: usize| waiting(ids, statuses).contains(x) implies ids.contains(x) by {
            if rest.contains(x) {
                assert(front.contains(x));
                let j = choose|j: int| 0 <= j < front.len() && front[j] == x;
                assert(front[j] == ids[j]);
            } else {
                assert(ids[n as int] == x);
            }
        }
        if distinct_ids(ids) && statuses[n as int] == TaskStatus::Wait {
            assert(distinct_ids(front)) by {
                assert forall|i: int, j: int| 0 <= i < j < front.len() implies #[trigger] front[i] != #[trigger] front[j] by {
                    assert(front[i] == ids[i]);
                    assert(front[j] == ids[j]);
                }
            }
            assert(!rest.contains(ids.last())) by {
                if rest.contains(ids.last()) {
                    assert(front.contains(ids.last()));
                    let j = choose|j: int| 0 <= j < front.len() && front[j] == ids.last();
                    assert(front[j] == ids[j]);
                    assert(ids[j] == ids[n as int]);
                }
            }
            let w = rest.push(ids.last());
            assert forall|i: int, j: int| 0 <= i < j < w.len() implies #[trigger] w[i] != #[trigger] w[j] by {
                if j == w.len() - 1 {
                    assert(w[i] == rest[i]);
                    assert(rest.contains(rest[i]));
                } else {
                    assert(w[i] == rest[i]);
                    assert(w[j] == rest[j]);
                }
            }
        }
    }
}

/// Taking the waiting ids and then their tasks gives the waiting tasks.
proof fn lemma_waiting_tasks(ids: Seq<usize>, statuses: Seq<TaskStatus>, m: Map<usize, Task>)
    requires
        statuses.len() == ids.len(),
    ensures
        tasks_of(waiting(ids, statuses), m) == waiting_tasks(tasks_of(ids, m), statuses),
    decreases ids.len(),
{
    if ids.len() > 0 {
        let n = ids.len() - 1;
        let st = statuses.take(n as int);
        lemma_waiting_tasks(ids.drop_last(), st, m);
        let ts = tasks_of(ids, m);
        assert(ts.drop_last() =~= tasks_of(ids.drop_last(), m));
        assert(ts.last() == m[ids.last()]);
        let rest = waiting(ids.drop_last(), st);
        assert(tasks_of(rest.push(ids.last()), m) =~= tasks_of(rest, m).push(m[ids.last()]));
    } else {
        assert(tasks_of(ids, m) =~= Seq::<Task>::empty());
    }
}

/// Tasks in the order they run, each under an id of its own, with how many tasks of each
/// counted kind are pending.
#[derive(Debug)]
pub struct TaskManager {
    next_task_id: usize,
    tasks: HashMap<usize, Task>,
    order: VecDeque<usize>,
    stats: TasksCount,
}

impl TaskManager {
    /// The pending tasks, in the order they run.
    pub closed spec fn pending(self) -> Seq<Task> {
        tasks_of(self.order@, self.tasks@)
    }

    pub closed spec fn spec_stats(self) -> TasksCount {
        self.stats
    }

    /// The id the next task gets.
    pub closed spec fn next_id(self) -> int {
        self.next_task_id as int
    }

    /// Each pending id occurs once in the order, has a task and was handed out before; and every
    /// tally counts the pending tasks of its kind.
    pub closed spec fn wf(self) -> bool {
        &&& distinct_ids(self.order@)
        &&& forall|id: usize| #[trigger] self.tasks@.contains_key(id) <==> self.order@.contains(id)
        &&& forall|i: int| 0 <= i < self.order@.len() ==> #[trigger] self.order@[i] < self.next_task_id
        &&& forall|k: int| 0 <= k < 8 ==> #[trigger] tally_of(self.stats, k) == count_tally(self.pending(), k)
    }

    /// Every tally counts the pending tasks of its kind.
    pub proof fn lemma_stats_count(self)
        requires
            self.wf(),
        ensures
            forall|k: int| 0 <= k < 8 ==> #[trigger] tally_of(self.spec_stats(), k) == count_tally(self.pending(), k),
    {
    }

    pub fn new() -> (r: Self)
        ensures
            r.wf(),
            r.pending() == Seq::<Task>::empty(),
            r.next_id() == 0,
    {
        let r = TaskManager { next_task_id: 0, tasks: HashMap::new(), order: VecDeque::new(), stats: TasksCount::default() };
        proof {
            assert(r.pending() =~= Seq::<Task>::empty());
        }
        r
    }

    pub fn stats(&self) -> (r: &TasksCount)
        ensures
            *r == self.spec_stats(),
    {
        &self.stats
    }

    /// Runs `task` before every pending one.
    pub fn push_front(&mut self, task: Task)
        requires
            old(self).wf(),
            old(self).next_id() < usize::MAX,
        ensures
            final(self).wf(),
            final(self).pending() == seq![task] + old(self).pending(),
            final(self).next_id() == old(self).next_id() + 1,
    {
        let ghost old_pending = self.pending();
        let ghost old_order = self.order@;
        let ghost old_tasks = self.tasks@;
        let kind = task_tally(&task);
        let id = self.next_task_id;
        self.next_task_id = id + 1;
        self.order.push_front(id);
        let n = self.order.len();
        self.tasks.insert(id, task);
        proof {
            let p = self.pending();
            assert(p =~= seq![task] + old_pending) by {
                assert forall|i: int| 0 <= i < p.len() implies p[i] == (seq![task] + old_pending)[i] by {
                    if i > 0 {
                        assert(self.order@[i] == old_order[i - 1]);
                        assert(old_order[i - 1] < id);
                    }
                }
            }
            assert forall|k: int| 0 <= k < 8 implies count_tally(p, k) == count_tally(old_pending, k) + if k == kind { 1int } else { 0int } by {
                lemma_count_concat(seq![task], old_pending, k);
                assert(seq![task].drop_last() =~= Seq::<Task>::empty());
                assert(seq![task].last() == task);
                assert(count_tally(Seq::<Task>::empty(), k) == 0);
                assert(count_tally(seq![task], k) == if tally_index(task) == k { 1nat } else { 0nat });
            }
            lemma_count_bound(p, kind as int);
            assert(p.len() == n);
            assert forall|i: int, j: int| 0 <= i < j < self.order@.len() implies #[trigger] self.order@[i] != #[trigger] self.order@[j] by {
                if i == 0 {
                    assert(old_order[j - 1] < id);
                } else {
                    assert(self.order@[i] == old_order[i - 1]);
                    assert(self.order@[j] == old_order[j - 1]);
                }
            }
            assert forall|x: usize| #[trigger] self.tasks@.contains_key(x) <==> self.order@.contains(x) by {
                if old_order.contains(x) {
                    let j = choose|j: int| 0 <= j < old_order.len() && old_order[j] == x;
                    assert(self.order@[j + 1] == x);
                }
                if self.order@.contains(x) && x != id {
                    let j = choose|j: int| 0 <= j < self.order@.len() && self.order@[j] == x;
                    assert(old_order[j - 1] == x);
                }
                assert(self.order@[0] == id);
            }
        }
        count_up(&mut self.stats, kind);
    }

    /// Runs `task` after every pending one.
    pub fn push_back(&mut self, task: Task)
        requires
            old(self).wf(),
            old(self).next_id() < usize::MAX,
        ensures
            final(self).wf(),
            final(self).pending() == old(self).pending().push(task),
            final(self).next_id() == old(self).next_id() + 1,
    {
        let ghost old_pending = self.pending();
        let ghost old_order = self.order@;
        let kind = task_tally(&task);
        let id = self.next_task_id;
        self.next_task_id = id + 1;
        self.order.push_back(id);
        let n = self.order.len();
        self.tasks.insert(id, task);
        proof {
            let p = self.pending();
            assert(p =~= old_pending.push(task)) by {
                assert forall|i: int| 0 <= i < p.len() implies p[i] == old_pending.push(task)[i] by {
                    if i < old_order.len() {
                        assert(self.order@[i] == old_order[i]);
                        assert(old_order[i] < id);
                    }
                }
            }
            assert(p.drop_last() =~= old_pending);
            lemma_count_bound(p, kind as int);
            assert(p.len() == n);
            assert forall|i: int, j: int| 0 <= i < j < self.order@.len() implies #[trigger] self.order@[i] != #[trigger] self.order@[j] by {
                if j == old_order.len() {
                    assert(old_order[i] < id);
                } else {
                    assert(self.order@[i] == old_order[i]);
                    assert(self.order@[j] == old_order[j]);
                }
            }
            assert forall|x: usize| #[trigger] self.tasks@.contains_key(x) <==> self.order@.contains(x) by {
                if old_order.contains(x) {
                    let j = choose|j: int| 0 <= j < old_order.len() && old_order[j] == x;
                    assert(self.order@[j] == x);
                }
                if self.order@.contains(x) && x != id {
                    let j = choose|j: int| 0 <= j < self.order@.len() && self.order@[j] == x;
                    assert(old_order[j] == x);
                }
                assert(self.order@[old_order.len() as int] == id);
            }
        }
        count_up(&mut self.stats, kind);
    }
}

impl TaskManager {
    /// The end of a turn of the tasks: `statuses` gives, in the order of the pending tasks, what
    /// each reported; every task that does not wait any more leaves, and its tally goes down.
    pub fn update(&mut self, statuses: &Vec<TaskStatus>)
        requires
            old(self).wf(),
            statuses.len() == old(self).pending().len(),
        ensures
            final(self).wf(),
            final(self).pending() == waiting_tasks(old(self).pending(), statuses@),
            final(self).next_id() == old(self).next_id(),
    {
        let ghost o = self.order@;
        let ghost t = self.tasks@;
        let mut kept: VecDeque<usize> = VecDeque::new();
        let n = self.order.len();
        let mut k: usize = 0;
        proof {
            assert(o.take(0) =~= Seq::<usize>::empty());
            assert(o.skip(0) =~= o);
            assert(tasks_of(kept@, t) + tasks_of(o.skip(0), t) =~= tasks_of(o, t));
        }
        while k < n
            invariant
                k <= n,
                n == o.len(),
                statuses.len() == n,
                self.order@ == o,
                self.next_task_id == old(self).next_task_id,
                distinct_ids(o),
                forall|i: int| 0 <= i < o.len() ==> #[trigger] o[i] < self.next_task_id,
                forall|id: usize| #[trigger] t.contains_key(id) <==> o.contains(id),
                kept@ == waiting(o.take(k as int), statuses@.take(k as int)),
                forall|id: usize| #[trigger] self.tasks@.contains_key(id) <==> (kept@.contains(id) || o.skip(k as int).contains(id)),
                forall|id: usize| #[trigger] self.tasks@.contains_key(id) ==> self.tasks@[id] == t[id],
                forall|j: int| 0 <= j < 8 ==> #[trigger] tally_of(self.stats, j) == count_tally(tasks_of(kept@, t) + tasks_of(o.skip(k as int), t), j),
            decreases n - k,
        {
            let id = self.order[k];
            let ghost before = kept@;
            let ghost here = o.skip(k as int);
            let ghost after = o.skip(k + 1);
            proof {
                lemma_waiting_members(o.take(k as int), statuses@.take(k as int));
                assert(o.take(k + 1).drop_last() =~= o.take(k as int));
                assert(statuses@.take(k + 1).take(k as int) =~= statuses@.take(k as int));
                assert(here =~= seq![id] + after);
                assert(tasks_of(here, t) =~= seq![t[id]] + tasks_of(after, t));
                assert(!after.contains(id)) by {
                    if after.contains(id) {
                        let j = choose|j: int| 0 <= j < after.len() && after[j] == id;
                        assert(o[k + 1 + j] == o[k as int]);
                    }
                }
                assert(!before.contains(id)) by {
                    if before.contains(id) {
                        assert(o.take(k as int).contains(id));
                        let j = choose|j: int| 0 <= j < k && o.take(k as int)[j] == id;
                        assert(o[j] == o[k as int]);
                    }
                }
                assert(o.contains(id));
            }
            if statuses[k] == TaskStatus::Wait {
                kept.push_back(id);
                proof {
                    assert(tasks_of(kept@, t) =~= tasks_of(before, t).push(t[id]));
                    assert(tasks_of(kept@, t) + tasks_of(after, t) =~= tasks_of(before, t) + tasks_of(here, t));
                    assert forall|x: usize| #[trigger] self.tasks@.contains_key(x) <==> (kept@.contains(x) || after.contains(x)) by {
                        if here.contains(x) && x != id {
                            let j = choose|j: int| 0 <= j < here.len() && here[j] == x;
                            assert(after[j - 1] == x);
                        }
                        if after.contains(x) {
                            let j = choose|j: int| 0 <= j < after.len() && after[j] == x;
                            assert(here[j + 1] == x);
                        }
                        if before.contains(x) {
                            let j = choose|j: int| 0 <= j < before.len() && before[j] == x;
                            assert(kept@[j] == x);
                        }
                        if kept@.contains(x) && x != id {
                            let j = choose|j: int| 0 <= j < kept@.len() && kept@[j] == x;
                            assert(before[j] == x);
                        }
                        assert(kept@[before.len() as int] == id);
                        assert(here[0] == id);
                    }
                }
            } else {
                let kind = match self.tasks.get(&id) {
                    Some(task) => task_tally(task),
                    None => -1,
                };
                proof {
                    let rest = tasks_of(after, t);
                    let front = tasks_of(before, t);
                    assert(here[0] == id);
                    assert(here.contains(id));
                    assert(self.tasks@.contains_key(id));
                    assert(kind == tally_index(t[id]));
                    assert forall|j: int| 0 <= j < 8 implies count_tally(front + (seq![t[id]] + rest), j) == count_tally(front + rest, j)
                        + if j == kind { 1int } else { 0int } by {
                        lemma_count_concat(front, seq![t[id]] + rest, j);
                        lemma_count_concat(seq![t[id]], rest, j);
                        lemma_count_concat(front, rest, j);
                        assert(seq![t[id]].drop_last() =~= Seq::<Task>::empty());
                        assert(count_tally(Seq::<Task>::empty(), j) == 0);
                    }
                }
                count_down(&mut self.stats, kind);
                self.tasks.remove(&id);
                proof {
                    assert forall|x: usize| #[trigger] self.tasks@.contains_key(x) <==> (kept@.contains(x) || after.contains(x)) by {
                        if here.contains(x) && x != id {
                            let j = choose|j: int| 0 <= j < here.len() && here[j] == x;
                            assert(after[j - 1] == x);
                        }
                        if after.contains(x) {
                            let j = choose|j: int| 0 <= j < after.len() && after[j] == x;
                            assert(here[j + 1] == x);
                        }
                    }
                }
            }
            k = k + 1;
        }
        proof {
            assert(o.take(n as int) =~= o);
            assert(statuses@.take(n as int) =~= statuses@);
            assert(o.skip(n as int) =~= Seq::<usize>::empty());
            assert(tasks_of(kept@, t) + tasks_of(o.skip(n as int), t) =~= tasks_of(kept@, t));
            lemma_waiting_members(o, statuses@);
            lemma_waiting_tasks(o, statuses@, t);
        }
        self.order = kept;
        proof {
            assert(tasks_of(self.order@, self.tasks@) =~= tasks_of(self.order@, t)) by {
                assert forall|i: int| 0 <= i < self.order@.len() implies self.tasks@[self.order@[i]] == t[self.order@[i]] by {
                    assert(self.order@.contains(self.order@[i]));
                    assert(self.tasks@.contains_key(self.order@[i]));
                }
            }
            assert forall|i: int| 0 <= i < self.order@.len() implies #[trigger] self.order@[i] < self.next_task_id by {
                assert(self.order@.contains(self.order@[i]));
                assert(o.contains(self.order@[i]));
            }
        }
    }
}


/// Whether the world flags the cell of `p` as threatened by an opponent.
pub open spec fn attacked_at(w: World, p: Vec2i) -> bool {
    w.spec_attacked()[p.x + p.y * w.spec_map_size()]
}

/// Whether a resource is safe to harvest: inside the protected perimeter and not threatened.
pub open spec fn safe_resource(w: World, e: Entity) -> bool {
    manhattan(e.position, w.spec_start_position()) <= w.spec_protected_radius() && !attacked_at(w, e.position)
}

/// The safe resources among `es`, in their order.
pub open spec fn safe_resources(w: World, es: Seq<Entity>) -> Seq<Entity>
    decreases es.len(),
{
    if es.len() == 0 {
        es
    } else {
        let rest = safe_resources(w, es.drop_last());
        if safe_resource(w, es.last()) {
            rest.push(es.last())
        } else {
            rest
        }
    }
}

/// The first of `es` nearest to `from`, if any.
pub open spec fn first_nearest(es: Seq<Entity>, from: Vec2i) -> Option<Entity>
    decreases es.len(),
{
    if es.len() == 0 {
        None
    } else {
        let r = first_nearest(es.drop_last(), from);
        match r {
            Some(q) => if manhattan(es.last().position, from) < manhattan(q.position, from) {
                Some(es.last())
            } else {
                r
            },
            None => Some(es.last()),
        }
    }
}

/// The first nearest safe resource to `from`, if any.
pub open spec fn nearest_safe(w: World, from: Vec2i) -> Option<Entity> {
    first_nearest(safe_resources(w, w.selected(EntityQuery::Resources)), from)
}

/// The role a builder takes when harvesting is planned: a harvester under threat stops; one
/// whose resource is gone stops; one with a nearer safe resource moves to it; a builder without
/// a role takes the nearest safe resource.
pub open spec fn harvest_role(w: World, role: Role, b: Entity) -> Role {
    let checked = match role {
        Role::Harvester { resource_id } => if attacked_at(w, b.position) {
            Role::Idle
        } else if crate::world::last_index_of(w.spec_entities(), resource_id) >= 0 {
            let current = w.spec_entities()[crate::world::last_index_of(w.spec_entities(), resource_id)];
            match nearest_safe(w, b.position) {
                Some(r) => if manhattan(r.position, b.position) < manhattan(current.position, b.position) {
                    Role::Harvester { resource_id: r.id }
                } else {
                    role
                },
                None => role,
            }
        } else {
            Role::Idle
        },
        _ => role,
    };
    if checked == Role::Idle {
        match nearest_safe(w, b.position) {
            Some(r) => Role::Harvester { resource_id: r.id },
            None => Role::Idle,
        }
    } else {
        checked
    }
}

/// The roles after each builder of `builders` in turn took its harvesting role.
pub open spec fn harvest_roles(w: World, builders: Seq<Entity>, roles: Map<i32, Role>) -> Map<i32, Role>
    decreases builders.len(),
{
    if builders.len() == 0 {
        roles
    } else {
        let prev = harvest_roles(w, builders.drop_last(), roles);
        let b = builders.last();
        prev.insert(b.id, harvest_role(w, prev[b.id], b))
    }
}

/// A resource a builder may be sent to: a resource the world knows, inside the protected
/// perimeter, on a cell no opponent threatens.
pub open spec fn harvest_target_ok(w: World, resource_id: i32) -> bool {
    exists|e: Entity|
        #[trigger] w.spec_entities().contains(e) && e.id == resource_id && e.entity_type == EntityType::Resource
            && manhattan(e.position, w.spec_start_position()) <= w.spec_protected_radius() && !w.spec_attacked()[e.position.x
            + e.position.y * w.spec_map_size()]
}

proof fn lemma_safe_resources_safe(w: World, es: Seq<Entity>)
    ensures
        forall|k: int| 0 <= k < safe_resources(w, es).len() ==> safe_resource(w, #[trigger] safe_resources(w, es)[k]),
    decreases es.len(),
{
    if es.len() > 0 {
        lemma_safe_resources_safe(w, es.drop_last());
        let rest = safe_resources(w, es.drop_last());
        assert forall|k: int| 0 <= k < safe_resources(w, es).len() implies safe_resource(w, #[trigger] safe_resources(w, es)[k]) by {
            if k < rest.len() {
                assert(safe_resources(w, es)[k] == rest[k]);
            }
        }
    }
}

proof fn lemma_nearest_safe_ok(w: World, from: Vec2i)
    ensures
        nearest_safe(w, from) matches Some(r) ==> harvest_target_ok(w, r.id),
{
    let es = w.selected(EntityQuery::Resources);
    lemma_picked_members(w.spec_entities(), EntityQuery::Resources, w.spec_my_id(), w.spec_properties());
    lemma_safe_members(w, es);
    lemma_safe_resources_safe(w, es);
    lemma_first_nearest_member(safe_resources(w, es), from);
    if nearest_safe(w, from) is Some {
        let r = nearest_safe(w, from)->0;
        let k = choose|k: int| 0 <= k < safe_resources(w, es).len() && safe_resources(w, es)[k] == r;
        assert(safe_resource(w, safe_resources(w, es)[k]));
        assert(es.contains(safe_resources(w, es)[k]));
        let j = choose|j: int| 0 <= j < es.len() && es[j] == r;
        assert(w.spec_entities().contains(es[j]));
        assert(w.spec_entities().contains(r));
    }
}

/// Harvesting never sends a builder under fire: whenever a builder's role becomes harvesting a
/// resource it did not harvest before, that resource is one the world knows, inside the
/// protected perimeter and on a cell no opponent threatens.
pub proof fn lemma_harvest_targets_safe(w: World, builders: Seq<Entity>, roles: Map<i32, Role>)
    requires
        forall|j: int| 0 <= j < builders.len() ==> roles.contains_key(#[trigger] builders[j].id),
    ensures
        forall|k: i32| roles.contains_key(k) ==> #[trigger] harvest_roles(w, builders, roles).contains_key(k),
        forall|k: i32|
            #[trigger] harvest_roles(w, builders, roles).contains_key(k) && harvest_roles(w, builders, roles)[k] is Harvester
                && !(roles.contains_key(k) && roles[k] == harvest_roles(w, builders, roles)[k]) ==> harvest_target_ok(
                w,
                harvest_roles(w, builders, roles)[k]->Harvester_resource_id,
            ),
    decreases builders.len(),
{
    if builders.len() > 0 {
        let front = builders.drop_last();
        assert forall|j: int| 0 <= j < front.len() implies roles.contains_key(#[trigger] front[j].id) by {
            assert(front[j] == builders[j]);
        }
        lemma_harvest_targets_safe(w, front, roles);
        assert(roles.contains_key(builders[builders.len() - 1].id));
        let prev = harvest_roles(w, front, roles);
        let b = builders.last();
        let nr = harvest_role(w, prev[b.id], b);
        lemma_nearest_safe_ok(w, b.position);
        assert forall|k: i32|
            #[trigger] harvest_roles(w, builders, roles).contains_key(k) && harvest_roles(w, builders, roles)[k] is Harvester
                && !(roles.contains_key(k) && roles[k] == harvest_roles(w, builders, roles)[k]) implies harvest_target_ok(
                w,
                harvest_roles(w, builders, roles)[k]->Harvester_resource_id,
            ) by {
            if k == b.id {
                if nr != prev[b.id] {
                    assert(nearest_safe(w, b.position) is Some);
                } else {
                    assert(prev.contains_key(k));
                }
            } else {
                assert(harvest_roles(w, builders, roles)[k] == prev[k]);
            }
        }
    }
}

proof fn lemma_first_nearest_min(es: Seq<Entity>, from: Vec2i)
    ensures
        es.len() > 0 <==> first_nearest(es, from) is Some,
        first_nearest(es, from) matches Some(r) ==> forall|k: int|
            0 <= k < es.len() ==> manhattan(r.position, from) <= manhattan(#[trigger] es[k].position, from),
    decreases es.len(),
{
    if es.len() > 0 {
        let front = es.drop_last();
        lemma_first_nearest_min(front, from);
        let r = first_nearest(es, from)->0;
        assert forall|k: int| 0 <= k < es.len() implies manhattan(r.position, from) <= manhattan(#[trigger] es[k].position, from) by {
            if k < front.len() {
                assert(front[k] == es[k]);
            }
        }
    }
}

proof fn lemma_safe_resources_complete(w: World, es: Seq<Entity>, e: Entity)
    requires
        es.contains(e),
        safe_resource(w, e),
    ensures
        safe_resources(w, es).contains(e),
    decreases es.len(),
{
    let front = es.drop_last();
    if es.last() == e {
        assert(safe_resources(w, es).last() == e);
        assert(safe_resources(w, es)[safe_resources(w, es).len() - 1] == e);
    } else {
        let j = choose|j: int| 0 <= j < es.len() && es[j] == e;
        assert(j < es.len() - 1);
        assert(front[j] == e);
        lemma_safe_resources_complete(w, front, e);
        let rest = safe_resources(w, front);
        let m = choose|m: int| 0 <= m < rest.len() && rest[m] == e;
        assert(safe_resources(w, es)[m] == e);
    }
}

/// A builder sent to harvest goes to the nearest safe resource: no resource inside the protected
/// perimeter on a cell no opponent threatens is nearer; and none is chosen only when there is no
/// such resource.
pub proof fn lemma_harvest_goes_to_nearest_safe(w: World, from: Vec2i)
    ensures
        forall|e: Entity|
            #[trigger] w.selected(EntityQuery::Resources).contains(e) && manhattan(e.position, w.spec_start_position())
                <= w.spec_protected_radius() && !w.spec_attacked()[e.position.x + e.position.y * w.spec_map_size()]
                ==> (nearest_safe(w, from) matches Some(r) && manhattan(r.position, from) <= manhattan(e.position, from)),
{
    let es = w.selected(EntityQuery::Resources);
    let safe = safe_resources(w, es);
    lemma_first_nearest_min(safe, from);
    assert forall|e: Entity|
        #[trigger] es.contains(e) && manhattan(e.position, w.spec_start_position()) <= w.spec_protected_radius()
            && !w.spec_attacked()[e.position.x + e.position.y * w.spec_map_size()] implies (nearest_safe(w, from) matches Some(
        r,
    ) && manhattan(r.position, from) <= manhattan(e.position, from)) by {
        assert(safe_resource(w, e));
        lemma_safe_resources_complete(w, es, e);
        let k = choose|k: int| 0 <= k < safe.len() && safe[k] == e;
        assert(manhattan(safe[k].position, from) == manhattan(e.position, from));
    }
}

/// The first nearest safe resource to `from`.
fn nearest_safe_resource(world: &World, from: Vec2i) -> (r: Option<Entity>)
    requires
        world.wf(),
        world.radius_defined(),
        world.distances_fit(),
        exists|i: int| 0 <= i < world.spec_entities().len() && world.spec_entities()[i].position == from,
    ensures
        r == nearest_safe(*world, from),
{
    let resources = world.resources();
    let ghost all = world.spec_entities();
    proof {
        lemma_picked_members(all, EntityQuery::Resources, world.spec_my_id(), world.spec_properties());
    }
    let radius = world.get_protected_radius();
    let start = world.start_position();
    let size = world.map_size();
    let mut best: Option<Entity> = None;
    let mut i: usize = 0;
    while i < resources.len()
        invariant
            world.wf(),
            world.distances_fit(),
            radius == world.spec_protected_radius(),
            start == world.spec_start_position(),
            size == world.spec_map_size(),
            exists|k: int| 0 <= k < all.len() && all[k].position == from,
            all == world.spec_entities(),
            resources@ == world.selected(EntityQuery::Resources),
            forall|k: int| 0 <= k < resources@.len() ==> all.contains(#[trigger] resources@[k]),
            i <= resources.len(),
            best == first_nearest(safe_resources(*world, resources@.take(i as int)), from),
            best matches Some(q) ==> all.contains(q),
        decreases resources.len() - i,
    {
        proof {
            assert(resources@.take(i + 1).drop_last() =~= resources@.take(i as int));
        }
        let e = resources[i];
        proof {
            assert(all.contains(resources@[i as int]));
            let k = choose|k: int| 0 <= k < all.len() && all[k] == e;
            let f = choose|f: int| 0 <= f < all.len() && all[f].position == from;
            assert(in_map(size as int, all[k].position));
            assert(manhattan(all[k].position, all[f].position) <= i32::MAX);
            assert(manhattan(all[k].position, start) <= i32::MAX);
            crate::grid::lemma_cell_index_in_range(size as int, e.position);
            world.lemma_wf();
        }
        let safe = e.position.distance(start) <= radius && !world.is_attacked_by_opponents(e.position);
        if safe {
            let closer = match best {
                Some(q) => {
                    proof {
                        let k = choose|k: int| 0 <= k < all.len() && all[k] == q;
                        let f = choose|f: int| 0 <= f < all.len() && all[f].position == from;
                        assert(manhattan(all[k].position, all[f].position) <= i32::MAX);
                    }
                    e.position.distance(from) < q.position.distance(from)
                },
                None => true,
            };
            if closer {
                best = Some(e);
            }
        }
        proof {
            let rest = safe_resources(*world, resources@.take(i as int));
            assert(resources@.take(i + 1).last() == e);
            assert(safe == safe_resource(*world, e));
            assert(rest.push(e).drop_last() =~= rest);
            assert(rest.push(e).last() == e);
        }
        i = i + 1;
    }
    proof {
        assert(resources@.take(resources.len() as int) =~= resources@);
    }
    best
}

/// Plans harvesting: each builder of the player in turn takes its harvesting role
/// (`harvest_role`). The task never ends.
pub fn harvest_resources(world: &World, roles: &mut HashMap<i32, Role>) -> (r: TaskStatus)
    requires
        world.wf(),
        world.radius_defined(),
        world.distances_fit(),
        forall|i: int|
            0 <= i < world.spec_entities().len() && world.spec_entities()[i].player_id == Some(world.spec_my_id())
                && world.spec_entities()[i].entity_type == EntityType::BuilderUnit ==> old(roles)@.contains_key(
                #[trigger] world.spec_entities()[i].id,
            ),
    ensures
        r == TaskStatus::Wait,
        final(roles)@ == harvest_roles(*world, world.selected(EntityQuery::MyBuilderUnits), old(roles)@),
{
    let builders = world.my_builder_units();
    let ghost all = world.spec_entities();
    let ghost start_roles = roles@;
    proof {
        lemma_picked_members(all, EntityQuery::MyBuilderUnits, world.spec_my_id(), world.spec_properties());
    }
    let size = world.map_size();
    let mut i: usize = 0;
    while i < builders.len()
        invariant
            world.wf(),
            world.radius_defined(),
            world.distances_fit(),
            size == world.spec_map_size(),
            all == world.spec_entities(),
            builders@ == world.selected(EntityQuery::MyBuilderUnits),
            forall|k: int| 0 <= k < builders@.len() ==> all.contains(#[trigger] builders@[k]),
            forall|k: int| 0 <= k < builders@.len() ==> roles@.contains_key(#[trigger] builders@[k].id),
            i <= builders.len(),
            roles@ == harvest_roles(*world, builders@.take(i as int), start_roles),
        decreases builders.len() - i,
    {
        proof {
            assert(builders@.take(i + 1).drop_last() =~= builders@.take(i as int));
        }
        let b = builders[i];
        proof {
            assert(all.contains(builders@[i as int]));
            let k = choose|k: int| 0 <= k < all.len() && all[k] == b;
            assert(all[k].position == b.position);
            assert(in_map(size as int, all[k].position));
            crate::grid::lemma_cell_index_in_range(size as int, b.position);
            world.lemma_wf();
        }
        let role = *roles.get(&b.id).unwrap();
        let mut next = role;
        match role {
            Role::Harvester { resource_id } => {
                if world.is_attacked_by_opponents(b.position) {
                    next = Role::Idle;
                } else {
                    match world.find_entity(resource_id) {
                        Some(current) => {
                            proof {
                                let k = choose|k: int| 0 <= k < all.len() && all[k] == b;
                                crate::world::lemma_last_index_bounds(all, resource_id);
                                let c = crate::world::last_index_of(all, resource_id);
                                assert(manhattan(all[c].position, all[k].position) <= i32::MAX);
                            }
                            let current_distance = current.position.distance(b.position);
                            match nearest_safe_resource(world, b.position) {
                                Some(resource) => {
                                    proof {
                                        lemma_nearest_safe_member(*world, b.position);
                                        let k = choose|k: int| 0 <= k < all.len() && all[k] == b;
                                        let c = choose|c: int| 0 <= c < all.len() && all[c] == resource;
                                        assert(manhattan(all[c].position, all[k].position) <= i32::MAX);
                                    }
                                    if resource.position.distance(b.position) < current_distance {
                                        next = Role::Harvester { resource_id: resource.id };
                                    }
                                },
                                None => {},
                            }
                        },
                        None => {
                            next = Role::Idle;
                        },
                    }
                }
            },
            _ => {},
        }
        if next == Role::Idle {
            match nearest_safe_resource(world, b.position) {
                Some(resource) => {
                    next = Role::Harvester { resource_id: resource.id };
                },
                None => {},
            }
        }
        roles.insert(b.id, next);
        i = i + 1;
    }
    proof {
        assert(builders@.take(builders.len() as int) =~= builders@);
    }
    TaskStatus::Wait
}

/// The nearest safe resource is one of the world's entities.
proof fn lemma_nearest_safe_member(w: World, from: Vec2i)
    ensures
        nearest_safe(w, from) matches Some(r) ==> w.spec_entities().contains(r),
{
    let es = w.selected(EntityQuery::Resources);
    lemma_picked_members(w.spec_entities(), EntityQuery::Resources, w.spec_my_id(), w.spec_properties());
    lemma_safe_members(w, es);
    lemma_first_nearest_member(safe_resources(w, es), from);
    if nearest_safe(w, from) is Some {
        let r = nearest_safe(w, from)->0;
        let k = choose|k: int| 0 <= k < safe_resources(w, es).len() && safe_resources(w, es)[k] == r;
        assert(es.contains(safe_resources(w, es)[k]));
        let j = choose|j: int| 0 <= j < es.len() && es[j] == r;
        assert(w.spec_entities().contains(es[j]));
    }
}

proof fn lemma_safe_members(w: World, es: Seq<Entity>)
    ensures
        forall|k: int| 0 <= k < safe_resources(w, es).len() ==> es.contains(#[trigger] safe_resources(w, es)[k]),
    decreases es.len(),
{
    if es.len() > 0 {
        let front = es.drop_last();
        lemma_safe_members(w, front);
        let rest = safe_resources(w, front);
        assert forall|k: int| 0 <= k < safe_resources(w, es).len() implies es.contains(#[trigger] safe_resources(w, es)[k]) by {
            if k < rest.len() {
                assert(safe_resources(w, es)[k] == rest[k]);
                let j = choose|j: int| 0 <= j < front.len() && front[j] == rest[k];
                assert(es[j] == rest[k]);
            } else {
                assert(es[es.len() - 1] == es.last());
            }
        }
    }
}

proof fn lemma_first_nearest_member(es: Seq<Entity>, from: Vec2i)
    ensures
        first_nearest(es, from) matches Some(r) ==> es.contains(r),
    decreases es.len(),
{
    if es.len() > 0 {
        lemma_first_nearest_member(es.drop_last(), from);
        if first_nearest(es.drop_last(), from) is Some {
            let r = first_nearest(es.drop_last(), from)->0;
            let j = choose|j: int| 0 <= j < es.drop_last().len() && es.drop_last()[j] == r;
            assert(es[j] == r);
        }
        assert(es[es.len() - 1] == es.last());
    }
}


/// The resource free to the player of `w` with `allocated` set aside in place of what `w`
/// has allocated.
pub open spec fn free_resource(w: World, allocated: int) -> int {
    w.spec_players()[first_player_index(w.spec_players(), w.spec_my_id())].resource - w.spec_requested() - allocated
}

/// Whether setting `resource` and `population` aside, with `allocated` and
/// `allocated_population` already aside, stays within the range of `i32`.
pub open spec fn grant_fits(w: World, allocated: int, allocated_population: int, resource: int, population: int) -> bool {
    let r = w.spec_players()[first_player_index(w.spec_players(), w.spec_my_id())].resource;
    let free = free_resource(w, allocated);
    let left = w.spec_population_provide() - allocated_population;
    &&& first_player_index(w.spec_players(), w.spec_my_id()) >= 0
    &&& in_i32(r - w.spec_requested())
    &&& in_i32(free)
    &&& (free >= resource ==> in_i32(left))
    &&& (free >= resource && left >= population ==> in_i32(allocated + resource) && in_i32(allocated_population + population))
}

/// Whether `resource` and `population` are free with `allocated` and `allocated_population`
/// already aside.
pub open spec fn grants(w: World, allocated: int, allocated_population: int, resource: int, population: int) -> bool {
    free_resource(w, allocated) >= resource && w.spec_population_provide() - allocated_population >= population
}

/// One base in the planning of builders. The state is the number of builders, the roles, the
/// resource and population set aside, and whether every step so far could be carried out.
pub open spec fn builders_step(
    w: World,
    s: (int, Map<i32, Role>, int, int, bool),
    e: Entity,
    units: int,
    cost: int,
    population: int,
) -> (int, Map<i32, Role>, int, int, bool) {
    if e.entity_type != EntityType::BuilderBase {
        s
    } else {
        let wanted = (s.0 < TARGET_BUILDERS_COUNT && s.0 < (2 * units) / 3) || units / 3 < s.0;
        let asks = wanted && e.active;
        let free_role = s.1.contains_key(e.id) && (s.1[e.id] == Role::Idle || s.1[e.id] == Role::UnitBuilder);
        let tries = asks && free_role;
        let grant = tries && grants(w, s.2, s.3, cost, population);
        let ok = s.4 && (asks ==> s.1.contains_key(e.id)) && (tries ==> grant_fits(w, s.2, s.3, cost, population)) && (
        grant ==> s.0 + 1 <= usize::MAX);
        if grant {
            (s.0 + 1, s.1.insert(e.id, Role::UnitBuilder), s.2 + cost, s.3 + population, ok)
        } else {
            (s.0, s.1.insert(e.id, Role::Idle), s.2, s.3, ok)
        }
    }
}

/// The planning of builders over `bases` in turn.
pub open spec fn builders_fold(
    w: World,
    bases: Seq<Entity>,
    s: (int, Map<i32, Role>, int, int, bool),
    units: int,
    cost: int,
    population: int,
) -> (int, Map<i32, Role>, int, int, bool)
    decreases bases.len(),
{
    if bases.len() == 0 {
        s
    } else {
        builders_step(w, builders_fold(w, bases.drop_last(), s, units, cost, population), bases.last(), units, cost, population)
    }
}

proof fn lemma_builders_fold_ok(
    w: World,
    bases: Seq<Entity>,
    s: (int, Map<i32, Role>, int, int, bool),
    units: int,
    cost: int,
    population: int,
    k: int,
)
    requires
        0 <= k <= bases.len(),
        builders_fold(w, bases, s, units, cost, population).4,
    ensures
        builders_fold(w, bases.take(k), s, units, cost, population).4,
    decreases bases.len(),
{
    if k < bases.len() {
        assert(bases.drop_last().take(k) =~= bases.take(k));
        lemma_builders_fold_ok(w, bases.drop_last(), s, units, cost, population, k);
    } else {
        assert(bases.take(k) =~= bases);
    }
}

/// The state the planning of builders starts from in `w` with roles `roles`.
pub open spec fn builders_start(w: World, roles: Map<i32, Role>) -> (int, Map<i32, Role>, int, int, bool) {
    (
        crate::world::kind_count(w.spec_entities(), w.spec_my_id(), 3) as int,
        roles,
        w.spec_allocated() as int,
        w.spec_allocated_population() as int,
        true,
    )
}

/// The inputs of the planning of builders in `w`: the player's units, the cost and the
/// population of a builder.
pub open spec fn builders_inputs(w: World) -> (int, int, int) {
    (
        crate::world::moving_kind_total(w.spec_entities(), w.spec_my_id(), w.spec_properties(), 10),
        w.spec_entity_cost(EntityType::BuilderUnit),
        w.spec_properties()[3].population_use as int,
    )
}

/// Plans builders: each builder base of the player in turn builds a builder while the player
/// wants more builders and resource and population allow (`builders_step`), and otherwise has
/// no role. The task never ends.
pub fn build_builders(world: &mut World, roles: &mut HashMap<i32, Role>) -> (r: TaskStatus)
    requires
        old(world).wf(),
        in_i32(old(world).spec_entity_cost(EntityType::BuilderUnit)),
        2 * builders_inputs(*old(world)).0 <= usize::MAX,
        builders_fold(
            *old(world),
            old(world).selected(EntityQuery::MyBases),
            builders_start(*old(world), old(roles)@),
            builders_inputs(*old(world)).0,
            builders_inputs(*old(world)).1,
            builders_inputs(*old(world)).2,
        ).4,
    ensures
        r == TaskStatus::Wait,
        ({
            let f = builders_fold(
                *old(world),
                old(world).selected(EntityQuery::MyBases),
                builders_start(*old(world), old(roles)@),
                builders_inputs(*old(world)).0,
                builders_inputs(*old(world)).1,
                builders_inputs(*old(world)).2,
            );
            &&& final(roles)@ == f.1
            &&& final(world).spec_allocated() == f.2
            &&& final(world).spec_allocated_population() == f.3
        }),
        final(world).same_but_ledger(*old(world)),
        final(world).spec_requested() == old(world).spec_requested(),
{
    let ghost w0 = *world;
    let ghost start_roles = roles@;
    let mut builders = world.get_my_entity_count_of(&EntityType::BuilderUnit);
    let units_count = world.get_my_units_count();
    let population_use = world.get_entity_properties(&EntityType::BuilderUnit).population_use;
    let cost = world.get_entity_cost(&EntityType::BuilderUnit);
    let bases = world.my_bases();
    let ghost units = units_count as int;
    let ghost s0 = builders_start(w0, start_roles);
    proof {
        w0.lemma_wf();
    }
    let mut i: usize = 0;
    while i < bases.len()
        invariant
            world.wf(),
            w0.wf(),
            world.same_but_ledger(w0),
            world.spec_requested() == w0.spec_requested(),
            bases@ == w0.selected(EntityQuery::MyBases),
            units == builders_inputs(w0).0,
            units_count == units,
            2 * units <= usize::MAX,
            cost == builders_inputs(w0).1,
            population_use == builders_inputs(w0).2,
            builders_fold(w0, bases@, s0, units, cost as int, population_use as int).4,
            i <= bases.len(),
            ({
                let f = builders_fold(w0, bases@.take(i as int), s0, units, cost as int, population_use as int);
                &&& f.0 == builders as int
                &&& f.1 == roles@
                &&& f.2 == world.spec_allocated()
                &&& f.3 == world.spec_allocated_population()
            }),
        decreases bases.len() - i,
    {
        proof {
            assert(bases@.take(i + 1).drop_last() =~= bases@.take(i as int));
            lemma_builders_fold_ok(w0, bases@, s0, units, cost as int, population_use as int, i + 1);
        }
        let entity = bases[i];
        if entity.entity_type == EntityType::BuilderBase {
            let wanted = (builders < TARGET_BUILDERS_COUNT && builders < 2 * units_count / 3) || units_count / 3 < builders;
            let mut grant = false;
            if wanted && entity.active {
                let role = *roles.get(&entity.id).unwrap();
                if role == Role::Idle || role == Role::UnitBuilder {
                    grant = world.try_allocated_resource_and_population(cost, population_use);
                }
            }
            if grant {
                builders = builders + 1;
                roles.insert(entity.id, Role::UnitBuilder);
            } else {
                roles.insert(entity.id, Role::Idle);
            }
        }
        i = i + 1;
    }
    proof {
        assert(bases@.take(bases.len() as int) =~= bases@);
    }
    TaskStatus::Wait
}


/// One base in a turn of building units of kind `t`. The state is the roles, the resource and
/// population set aside, the units still to order, and whether every step so far could be
/// carried out.
pub open spec fn units_step(w: World, t: EntityType, s: (Map<i32, Role>, int, int, int, bool), e: Entity) -> (
    Map<i32, Role>,
    int,
    int,
    int,
    bool,
) {
    let builds = w.spec_properties()[crate::entity_type::spec_type_index(e.entity_type)].build;
    if !(builds == Some(t) && e.active) {
        s
    } else {
        let cost = w.spec_entity_cost(t);
        let population = w.spec_properties()[crate::entity_type::spec_type_index(t)].population_use as int;
        let present = s.0.contains_key(e.id);
        let tries = present && s.0[e.id] == Role::Idle;
        let grant = tries && grants(w, s.1, s.2, cost, population);
        let ok = s.4 && in_i32(cost) && present && (tries ==> grant_fits(w, s.1, s.2, cost, population)) && (grant ==> s.3
            >= 1);
        if grant {
            (s.0.insert(e.id, Role::UnitBuilder), s.1 + cost, s.2 + population, s.3 - 1, ok)
        } else {
            (s.0, s.1, s.2, s.3, ok)
        }
    }
}

/// A turn of building units of kind `t` over `bases` in turn.
pub open spec fn units_fold(w: World, t: EntityType, bases: Seq<Entity>, s: (Map<i32, Role>, int, int, int, bool)) -> (
    Map<i32, Role>,
    int,
    int,
    int,
    bool,
)
    decreases bases.len(),
{
    if bases.len() == 0 {
        s
    } else {
        units_step(w, t, units_fold(w, t, bases.drop_last(), s), bases.last())
    }
}

proof fn lemma_units_fold_ok(w: World, t: EntityType, bases: Seq<Entity>, s: (Map<i32, Role>, int, int, int, bool), k: int)
    requires
        0 <= k <= bases.len(),
        units_fold(w, t, bases, s).4,
    ensures
        units_fold(w, t, bases.take(k), s).4,
    decreases bases.len(),
{
    if k < bases.len() {
        assert(bases.drop_last().take(k) =~= bases.take(k));
        lemma_units_fold_ok(w, t, bases.drop_last(), s, k);
    } else {
        assert(bases.take(k) =~= bases);
    }
}

impl BuildUnitsTask {
    /// The state a turn of building units starts from in `w` with roles `roles`.
    pub open spec fn units_start(self, w: World, roles: Map<i32, Role>) -> (Map<i32, Role>, int, int, int, bool) {
        (roles, w.spec_allocated() as int, w.spec_allocated_population() as int, self.spec_left() as int, true)
    }

    /// A turn: each active base of the player that builds units of the task's kind, and has no
    /// role, orders one while resource and population allow (`units_step`). Done once every
    /// unit is ordered.
    pub fn update(&mut self, world: &mut World, roles: &mut HashMap<i32, Role>) -> (r: TaskStatus)
        requires
            old(world).wf(),
            units_fold(
                *old(world),
                old(self).spec_entity_type(),
                old(world).selected(EntityQuery::MyBases),
                old(self).units_start(*old(world), old(roles)@),
            ).4,
        ensures
            ({
                let f = units_fold(
                    *old(world),
                    old(self).spec_entity_type(),
                    old(world).selected(EntityQuery::MyBases),
                    old(self).units_start(*old(world), old(roles)@),
                );
                &&& final(roles)@ == f.0
                &&& final(world).spec_allocated() == f.1
                &&& final(world).spec_allocated_population() == f.2
                &&& final(self).spec_left() == f.3
                &&& r == if f.3 == 0 { TaskStatus::Done } else { TaskStatus::Wait }
            }),
            final(self).spec_entity_type() == old(self).spec_entity_type(),
            final(world).same_but_ledger(*old(world)),
            final(world).spec_requested() == old(world).spec_requested(),
    {
        let ghost w0 = *world;
        let ghost s0 = self.units_start(w0, roles@);
        let ghost t = self.entity_type;
        let bases = world.my_bases();
        proof {
            w0.lemma_wf();
        }
        let mut i: usize = 0;
        while i < bases.len()
            invariant
                world.wf(),
                w0.wf(),
                world.same_but_ledger(w0),
                world.spec_requested() == w0.spec_requested(),
                self.entity_type == t,
                bases@ == w0.selected(EntityQuery::MyBases),
                units_fold(w0, t, bases@, s0).4,
                i <= bases.len(),
                ({
                    let f = units_fold(w0, t, bases@.take(i as int), s0);
                    &&& f.0 == roles@
                    &&& f.1 == world.spec_allocated()
                    &&& f.2 == world.spec_allocated_population()
                    &&& f.3 == self.left as int
                }),
            decreases bases.len() - i,
        {
            proof {
                assert(bases@.take(i + 1).drop_last() =~= bases@.take(i as int));
                lemma_units_fold_ok(w0, t, bases@, s0, i + 1);
            }
            let base = bases[i];
            let builds = world.get_entity_properties(&base.entity_type).build;
            if builds == Some(self.entity_type) && base.active {
                let population = world.get_entity_properties(&self.entity_type).population_use;
                let cost = world.get_entity_cost(&self.entity_type);
                let role = *roles.get(&base.id).unwrap();
                if role == Role::Idle && world.try_allocated_resource_and_population(cost, population) {
                    roles.insert(base.id, Role::UnitBuilder);
                    self.left = self.left - 1;
                }
            }
            i = i + 1;
        }
        proof {
            assert(bases@.take(bases.len() as int) =~= bases@);
        }
        if self.left == 0 {
            TaskStatus::Done
        } else {
            TaskStatus::Wait
        }
    }
}


/// The keys of `s` whose role in `roles` is harvesting.
pub open spec fn harvesting_keys(roles: Map<i32, Role>, s: Set<i32>) -> Set<i32> {
    s.filter(|k: i32| roles[k] is Harvester)
}

/// How many of the roles are harvesting.
pub open spec fn harvesters(roles: Map<i32, Role>) -> nat {
    harvesting_keys(roles, roles.dom()).len()
}

/// How many of the keys `ks` have a harvesting role in `roles`.
pub open spec fn harvester_keys(roles: Map<i32, Role>, ks: Seq<i32>) -> nat
    decreases ks.len(),
{
    if ks.len() == 0 {
        0
    } else {
        harvester_keys(roles, ks.drop_last()) + if roles[ks.last()] is Harvester {
            1nat
        } else {
            0nat
        }
    }
}

proof fn lemma_harvester_keys_set(roles: Map<i32, Role>, ks: Seq<i32>)
    requires
        ks.no_duplicates(),
    ensures
        harvester_keys(roles, ks) == harvesting_keys(roles, ks.to_set()).len(),
        harvesting_keys(roles, ks.to_set()).finite(),
    decreases ks.len(),
{
    broadcast use {vstd::set::group_set_axioms, vstd::seq_lib::seq_to_set_is_finite};

    if ks.len() == 0 {
        assert(harvesting_keys(roles, ks.to_set()) =~= Set::<i32>::empty());
    } else {
        let front = ks.drop_last();
        let x = ks.last();
        assert(front.no_duplicates()) by {
            assert forall|i: int, j: int| 0 <= i < front.len() && 0 <= j < front.len() && i != j implies front[i]
                != front[j] by {
                assert(front[i] == ks[i]);
                assert(front[j] == ks[j]);
            }
        }
        lemma_harvester_keys_set(roles, front);
        assert(!front.contains(x)) by {
            if front.contains(x) {
                let j = choose|j: int| 0 <= j < front.len() && front[j] == x;
                assert(ks[j] == ks[ks.len() - 1]);
            }
        }
        assert(ks.to_set() =~= front.to_set().insert(x)) by {
            assert forall|y: i32| ks.contains(y) <==> (front.contains(y) || y == x) by {
                if ks.contains(y) {
                    let j = choose|j: int| 0 <= j < ks.len() && ks[j] == y;
                    if j < ks.len() - 1 {
                        assert(front[j] == y);
                    }
                }
                if front.contains(y) {
                    let j = choose|j: int| 0 <= j < front.len() && front[j] == y;
                    assert(ks[j] == y);
                }
                assert(ks[ks.len() - 1] == x);
            }
        }
        let before = harvesting_keys(roles, front.to_set());
        if roles[x] is Harvester {
            assert(harvesting_keys(roles, ks.to_set()) =~= before.insert(x));
            assert(!before.contains(x));
        } else {
            assert(harvesting_keys(roles, ks.to_set()) =~= before);
        }
    }
}

/// How many of the roles are harvesting.
fn count_harvesters(roles: &HashMap<i32, Role>) -> (r: usize)
    ensures
        r == harvesters(roles@),
{
    let ghost ks = vstd::std_specs::hash::spec_keys_iter(roles).remaining().unref();
    proof {
        assert(ks.no_duplicates()) by {
            assert forall|i: int, j: int| 0 <= i < ks.len() && 0 <= j < ks.len() && i != j implies ks[i] != ks[j] by {
                let rs = vstd::std_specs::hash::spec_keys_iter(roles).remaining();
                assert(rs.no_duplicates());
                assert(rs[i] != rs[j]);
            }
        }
        lemma_harvester_keys_set(roles@, ks);
    }
    let n = roles.len();
    assert(ks.len() == n);
    let mut count: usize = 0;
    for k in it: roles.keys()
        invariant
            ks.len() == n,
            it.seq().unref() == ks,
            count == harvester_keys(roles@, ks.take(it.index())),
            count <= it.index(),
    {
        proof {
            assert(ks.take(it.index() + 1).drop_last() =~= ks.take(it.index()));
        }
        match roles.get(k) {
            Some(Role::Harvester { .. }) => {
                count = count + 1;
            },
            _ => {},
        }
    }
    proof {
        assert(ks.take(ks.len() as int) =~= ks);
    }
    count
}


/// Whether `need` asks for more units of kind `t` than `has` counts.
pub open spec fn needs_more(need: Seq<Option<usize>>, has: Seq<Option<usize>>, t: EntityType) -> bool {
    need[crate::entity_type::spec_type_index(t)] matches Some(v) && v > has[crate::entity_type::spec_type_index(t)]->0
}

/// One unit in a turn of gathering group `gid`. The state is the group's units and counts, the
/// roles, and whether every step so far could be carried out. An active unit of a kind the group
/// needs more of, without a role or harvesting, joins, unless it is a builder while no more than
/// ten roles harvest.
pub open spec fn gather_unit_step(
    need: Seq<Option<usize>>,
    gid: u32,
    s: (Seq<(i32, EntityType)>, Seq<Option<usize>>, Map<i32, Role>, bool),
    u: Entity,
) -> (Seq<(i32, EntityType)>, Seq<Option<usize>>, Map<i32, Role>, bool) {
    let asks = u.active && needs_more(need, s.1, u.entity_type);
    let present = s.2.contains_key(u.id);
    let free = present && (s.2[u.id] == Role::Idle || s.2[u.id] is Harvester);
    let joins = asks && free && !(u.entity_type == EntityType::BuilderUnit && harvesters(s.2) <= 10);
    let ok = s.3 && (asks ==> present);
    if joins {
        let k = crate::entity_type::spec_type_index(u.entity_type);
        (
            s.0.push((u.id, u.entity_type)),
            s.1.update(k, Some((s.1[k]->0 + 1) as usize)),
            s.2.insert(u.id, Role::GroupMember { group_id: gid }),
            ok,
        )
    } else {
        (s.0, s.1, s.2, ok)
    }
}

pub open spec fn gather_unit_fold(
    need: Seq<Option<usize>>,
    gid: u32,
    units: Seq<Entity>,
    s: (Seq<(i32, EntityType)>, Seq<Option<usize>>, Map<i32, Role>, bool),
) -> (Seq<(i32, EntityType)>, Seq<Option<usize>>, Map<i32, Role>, bool)
    decreases units.len(),
{
    if units.len() == 0 {
        s
    } else {
        gather_unit_step(need, gid, gather_unit_fold(need, gid, units.drop_last(), s), units.last())
    }
}

/// One base in a turn of gathering group `gid`. The state is the roles, the resource and
/// population set aside, and whether every step so far could be carried out. A base without a
/// role or building units supplies the group when it is active, the group needs more of its
/// units and resource and population allow; a base supplying the group stops when one of these
/// fails.
pub open spec fn gather_base_step(
    w: World,
    need: Seq<Option<usize>>,
    has: Seq<Option<usize>>,
    gid: u32,
    s: (Map<i32, Role>, int, int, bool),
    b: Entity,
) -> (Map<i32, Role>, int, int, bool) {
    match w.spec_properties()[crate::entity_type::spec_type_index(b.entity_type)].build {
        None => s,
        Some(t) => {
            let cost = w.spec_entity_cost(t);
            let population = w.spec_properties()[crate::entity_type::spec_type_index(t)].population_use as int;
            let present = s.0.contains_key(b.id);
            let ok0 = s.3 && in_i32(cost) && present;
            let role = s.0[b.id];
            let tries = b.active && needs_more(need, has, t);
            let grant = tries && grants(w, s.1, s.2, cost, population);
            let ok = ok0 && (tries ==> grant_fits(w, s.1, s.2, cost, population));
            if role == Role::Idle || role == Role::UnitBuilder {
                if grant {
                    (s.0.insert(b.id, Role::GroupSupplier { group_id: gid }), s.1 + cost, s.2 + population, ok)
                } else {
                    (s.0, s.1, s.2, ok)
                }
            } else if role == (Role::GroupSupplier { group_id: gid }) {
                if grant {
                    (s.0, s.1 + cost, s.2 + population, ok)
                } else {
                    (s.0.insert(b.id, Role::Idle), s.1, s.2, ok)
                }
            } else {
                (s.0, s.1, s.2, ok0)
            }
        },
    }
}

pub open spec fn gather_base_fold(
    w: World,
    need: Seq<Option<usize>>,
    has: Seq<Option<usize>>,
    gid: u32,
    bases: Seq<Entity>,
    s: (Map<i32, Role>, int, int, bool),
) -> (Map<i32, Role>, int, int, bool)
    decreases bases.len(),
{
    if bases.len() == 0 {
        s
    } else {
        gather_base_step(w, need, has, gid, gather_base_fold(w, need, has, gid, bases.drop_last(), s), bases.last())
    }
}

proof fn lemma_gather_unit_fold_ok(
    need: Seq<Option<usize>>,
    gid: u32,
    units: Seq<Entity>,
    s: (Seq<(i32, EntityType)>, Seq<Option<usize>>, Map<i32, Role>, bool),
    k: int,
)
    requires
        0 <= k <= units.len(),
        gather_unit_fold(need, gid, units, s).3,
    ensures
        gather_unit_fold(need, gid, units.take(k), s).3,
    decreases units.len(),
{
    if k < units.len() {
        assert(units.drop_last().take(k) =~= units.take(k));
        lemma_gather_unit_fold_ok(need, gid, units.drop_last(), s, k);
    } else {
        assert(units.take(k) =~= units);
    }
}

proof fn lemma_gather_base_fold_ok(
    w: World,
    need: Seq<Option<usize>>,
    has: Seq<Option<usize>>,
    gid: u32,
    bases: Seq<Entity>,
    s: (Map<i32, Role>, int, int, bool),
    k: int,
)
    requires
        0 <= k <= bases.len(),
        gather_base_fold(w, need, has, gid, bases, s).3,
    ensures
        gather_base_fold(w, need, has, gid, bases.take(k), s).3,
    decreases bases.len(),
{
    if k < bases.len() {
        assert(bases.drop_last().take(k) =~= bases.take(k));
        lemma_gather_base_fold_ok(w, need, has, gid, bases.drop_last(), s, k);
    } else {
        assert(bases.take(k) =~= bases);
    }
}

/// Where the first group with id `gid` stands among `groups`, or -1.
pub open spec fn first_group_index(groups: Seq<Group>, gid: u32) -> int
    decreases groups.len(),
{
    if groups.len() == 0 {
        -1
    } else {
        let k = first_group_index(groups.drop_last(), gid);
        if k >= 0 {
            k
        } else if groups.last().spec_id() == gid {
            groups.len() - 1
        } else {
            -1
        }
    }
}

proof fn lemma_first_group_bounds(groups: Seq<Group>, gid: u32)
    ensures
        -1 <= first_group_index(groups, gid) < groups.len(),
        first_group_index(groups, gid) >= 0 ==> groups[first_group_index(groups, gid)].spec_id() == gid,
        forall|i: int|
            0 <= i < groups.len() && (first_group_index(groups, gid) < 0 || i < first_group_index(groups, gid)) ==> groups[i].spec_id() != gid,
    decreases groups.len(),
{
    if groups.len() > 0 {
        lemma_first_group_bounds(groups.drop_last(), gid);
        let k = first_group_index(groups.drop_last(), gid);
        if k >= 0 {
            assert(groups.drop_last()[k] == groups[k]);
        }
        assert forall|i: int|
            0 <= i < groups.len() && (first_group_index(groups, gid) < 0 || i < first_group_index(groups, gid)) implies groups[i].spec_id()
                != gid by {
            if i < groups.len() - 1 {
                assert(groups.drop_last()[i] == groups[i]);
            }
        }
    }
}

impl GatherGroupTask {
    /// The group of the task among `groups`, or -1.
    pub open spec fn group_index(self, groups: Seq<Group>) -> int {
        first_group_index(groups, self.spec_group_id())
    }

    /// What a turn of gathering does to the units, counts and roles, from group `g`.
    pub open spec fn gathered(self, w: World, g: Group, roles: Map<i32, Role>) -> (
        Seq<(i32, EntityType)>,
        Seq<Option<usize>>,
        Map<i32, Role>,
        bool,
    ) {
        gather_unit_fold(g.spec_need(), self.spec_group_id(), w.selected(EntityQuery::MyUnits), (g.spec_units(), g.spec_has(), roles, true))
    }

    /// What a turn of gathering does to the roles and the resource and population set aside,
    /// once the units joined.
    pub open spec fn supplied(self, w: World, g: Group, roles: Map<i32, Role>) -> (Map<i32, Role>, int, int, bool) {
        let joined = self.gathered(w, g, roles);
        gather_base_fold(
            w,
            g.spec_need(),
            joined.1,
            self.spec_group_id(),
            w.selected(EntityQuery::MyBases),
            (joined.2, w.spec_allocated() as int, w.spec_allocated_population() as int, true),
        )
    }

    /// A turn of gathering the task's group. Without the group the task fails. A full group
    /// becomes ready and the task is done. Otherwise units join the group (`gather_unit_step`)
    /// and bases take up or give up supplying it (`gather_base_step`), and the task waits.
    pub fn update(&mut self, world: &mut World, roles: &mut HashMap<i32, Role>, groups: &mut Vec<Group>) -> (r: TaskStatus)
        requires
            old(world).wf(),
            old(self).group_index(old(groups)@) >= 0 ==> old(groups)@[old(self).group_index(old(groups)@)].wf(),
            old(self).group_index(old(groups)@) >= 0 && !spec_is_full(
                old(groups)@[old(self).group_index(old(groups)@)].spec_need(),
                old(groups)@[old(self).group_index(old(groups)@)].spec_has(),
            ) ==> old(self).gathered(*old(world), old(groups)@[old(self).group_index(old(groups)@)], old(roles)@).3
                && old(self).supplied(*old(world), old(groups)@[old(self).group_index(old(groups)@)], old(roles)@).3,
        ensures
            final(self).spec_group_id() == old(self).spec_group_id(),
            final(groups)@.len() == old(groups)@.len(),
            forall|j: int|
                0 <= j < old(groups)@.len() && j != old(self).group_index(old(groups)@) ==> #[trigger] final(groups)@[j]
                    == old(groups)@[j],
            final(world).same_but_ledger(*old(world)),
            final(world).spec_requested() == old(world).spec_requested(),
            ({
                let i = old(self).group_index(old(groups)@);
                let g = old(groups)@[i];
                let f = final(groups)@[i];
                if i < 0 {
                    &&& r == TaskStatus::Fail
                    &&& final(roles)@ == old(roles)@
                    &&& final(world).spec_allocated() == old(world).spec_allocated()
                    &&& final(world).spec_allocated_population() == old(world).spec_allocated_population()
                } else if spec_is_full(g.spec_need(), g.spec_has()) {
                    &&& r == TaskStatus::Done
                    &&& f.spec_state() == GroupState::Ready
                    &&& f.spec_units() == g.spec_units()
                    &&& f.spec_has() == g.spec_has()
                    &&& f.spec_need() == g.spec_need()
                    &&& f.spec_id() == g.spec_id()
                    &&& f.spec_target() == g.spec_target()
                    &&& f.spec_position() == g.spec_position()
                    &&& f.wf()
                    &&& final(roles)@ == old(roles)@
                    &&& final(world).spec_allocated() == old(world).spec_allocated()
                    &&& final(world).spec_allocated_population() == old(world).spec_allocated_population()
                } else {
                    let joined = old(self).gathered(*old(world), g, old(roles)@);
                    let supplied = old(self).supplied(*old(world), g, old(roles)@);
                    &&& r == TaskStatus::Wait
                    &&& f.spec_units() == joined.0
                    &&& f.spec_has() == joined.1
                    &&& f.spec_need() == g.spec_need()
                    &&& f.spec_id() == g.spec_id()
                    &&& f.spec_state() == g.spec_state()
                    &&& f.spec_target() == g.spec_target()
                    &&& f.spec_position() == g.spec_position()
                    &&& f.wf()
                    &&& final(roles)@ == supplied.0
                    &&& final(world).spec_allocated() == supplied.1
                    &&& final(world).spec_allocated_population() == supplied.2
                }
            }),
    {
        let ghost g0 = groups@;
        let ghost idx = self.group_index(g0);
        proof {
            lemma_first_group_bounds(g0, self.group_id);
        }
        let mut found: Option<usize> = None;
        let mut i: usize = 0;
        while i < groups.len()
            invariant_except_break
                found is None,
                idx < 0 || i <= idx,
            invariant
                groups@ == g0,
                idx == first_group_index(g0, self.group_id),
                -1 <= idx < g0.len(),
                idx >= 0 ==> g0[idx].spec_id() == self.group_id,
                forall|j: int| 0 <= j < g0.len() && (idx < 0 || j < idx) ==> g0[j].spec_id() != self.group_id,
                i <= groups.len(),
                found matches Some(f) ==> f == idx,
            ensures
                found is None ==> idx < 0,
                found matches Some(f) ==> f == idx,
            decreases groups.len() - i,
        {
            if groups[i].id() == self.group_id {
                proof {
                    assert(g0[i as int].spec_id() == self.group_id);
                    assert(i as int == idx);
                }
                found = Some(i);
                break;
            }
            i = i + 1;
        }
        let index = match found {
            None => {
                return TaskStatus::Fail;
            },
            Some(index) => index,
        };
        let mut group = groups.remove(index);
        if group.is_full() {
            group.set_state(GroupState::Ready);
            groups.insert(index, group);
            proof {
                assert forall|j: int| 0 <= j < g0.len() && j != idx implies #[trigger] groups@[j] == g0[j] by {}
            }
            return TaskStatus::Done;
        }
        let ghost w0 = *world;
        let ghost roles0 = roles@;
        let ghost need = group.spec_need();
        let ghost gid = self.group_id;
        let ghost js0 = (group.spec_units(), group.spec_has(), roles0, true);
        let units = world.my_units();
        proof {
            group.lemma_wf_kinds();
        }
        let mut j: usize = 0;
        while j < units.len()
            invariant
                group.wf(),
                group.spec_need() == need,
                group.spec_id() == gid,
                group.spec_state() == g0[idx].spec_state(),
                group.spec_target() == g0[idx].spec_target(),
                group.spec_position() == g0[idx].spec_position(),
                self.group_id == gid,
                units@ == w0.selected(EntityQuery::MyUnits),
                gather_unit_fold(need, gid, units@, js0).3,
                j <= units.len(),
                ({
                    let f = gather_unit_fold(need, gid, units@.take(j as int), js0);
                    &&& f.0 == group.spec_units()
                    &&& f.1 == group.spec_has()
                    &&& f.2 == roles@
                }),
            decreases units.len() - j,
        {
            proof {
                assert(units@.take(j + 1).drop_last() =~= units@.take(j as int));
                lemma_gather_unit_fold_ok(need, gid, units@, js0, j + 1);
                group.lemma_wf_kinds();
            }
            let unit = units[j];
            if unit.active && group.need_more_of(&unit.entity_type) {
                let role = *roles.get(&unit.id).unwrap();
                let free = match role {
                    Role::Idle => true,
                    Role::Harvester { .. } => true,
                    _ => false,
                };
                if free {
                    let blocked = unit.entity_type == EntityType::BuilderUnit && count_harvesters(roles) <= 10;
                    if !blocked {
                        group.add_unit(unit.id, unit.entity_type);
                        roles.insert(unit.id, Role::GroupMember { group_id: self.group_id });
                    }
                }
            }
            j = j + 1;
        }
        proof {
            assert(units@.take(units.len() as int) =~= units@);
        }
        let ghost has1 = group.spec_has();
        let ghost bs0 = (roles@, w0.spec_allocated() as int, w0.spec_allocated_population() as int, true);
        let bases = world.my_bases();
        proof {
            w0.lemma_wf();
        }
        let mut b: usize = 0;
        while b < bases.len()
            invariant
                world.wf(),
                w0.wf(),
                world.same_but_ledger(w0),
                world.spec_requested() == w0.spec_requested(),
                group.wf(),
                group.spec_need() == need,
                group.spec_has() == has1,
                group.spec_id() == gid,
                group.spec_state() == g0[idx].spec_state(),
                group.spec_target() == g0[idx].spec_target(),
                group.spec_position() == g0[idx].spec_position(),
                self.group_id == gid,
                bases@ == w0.selected(EntityQuery::MyBases),
                gather_base_fold(w0, need, has1, gid, bases@, bs0).3,
                b <= bases.len(),
                ({
                    let f = gather_base_fold(w0, need, has1, gid, bases@.take(b as int), bs0);
                    &&& f.0 == roles@
                    &&& f.1 == world.spec_allocated()
                    &&& f.2 == world.spec_allocated_population()
                }),
            decreases bases.len() - b,
        {
            proof {
                assert(bases@.take(b + 1).drop_last() =~= bases@.take(b as int));
                lemma_gather_base_fold_ok(w0, need, has1, gid, bases@, bs0, b + 1);
            }
            let base = bases[b];
            match world.get_entity_properties(&base.entity_type).build {
                Some(t) => {
                    let population = world.get_entity_properties(&t).population_use;
                    let cost = world.get_entity_cost(&t);
                    let role = *roles.get(&base.id).unwrap();
                    if role == Role::Idle || role == Role::UnitBuilder {
                        if base.active && group.need_more_of(&t) && world.try_allocated_resource_and_population(cost, population) {
                            roles.insert(base.id, Role::GroupSupplier { group_id: self.group_id });
                        }
                    } else if role == (Role::GroupSupplier { group_id: self.group_id }) {
                        if !base.active || !group.need_more_of(&t) || !world.try_allocated_resource_and_population(cost, population) {
                            roles.insert(base.id, Role::Idle);
                        }
                    }
                },
                None => {},
            }
            b = b + 1;
        }
        proof {
            assert(bases@.take(bases.len() as int) =~= bases@);
        }
        groups.insert(index, group);
        proof {
            assert forall|j: int| 0 <= j < g0.len() && j != idx implies #[trigger] groups@[j] == g0[j] by {}
        }
        TaskStatus::Wait
    }
}



/// Whether the work of a repairer is over: its building is gone or back at full health.
pub open spec fn repair_finished(w: World, r: Role) -> bool {
    match r {
        Role::BuildingRepairer { building_id, .. } => {
            let i = last_index_of(w.spec_entities(), building_id);
            i < 0 || w.spec_entities()[i].health >= w.spec_properties()[spec_type_index(
                w.spec_entities()[i].entity_type,
            )].max_health
        },
        _ => false,
    }
}

/// The roles once each repairer whose work is over has no role.
pub open spec fn ended_repairs(w: World, roles: Map<i32, Role>) -> Map<i32, Role> {
    roles.map_values(|r: Role| if repair_finished(w, r) { Role::Idle } else { r })
}

/// Whether role `r` repairs the building `id`.
pub open spec fn repairs(r: Role, id: i32) -> bool {
    r matches Role::BuildingRepairer { building_id, .. } && building_id == id
}

/// Whether some entity has the role of repairing the building `id`.
pub open spec fn under_repair(roles: Map<i32, Role>, id: i32) -> bool {
    exists|k: i32| roles.dom().contains(k) && #[trigger] repairs(roles[k], id)
}

/// The health an entity lacks.
pub open spec fn damage_of(w: World, e: Entity) -> int {
    w.spec_properties()[spec_type_index(e.entity_type)].max_health - e.health
}

/// For each damaged building of `bs` that nobody repairs, in order: its damage negated and its
/// id, so that the most damaged comes first in ascending order.
pub open spec fn damaged_keys(w: World, roles: Map<i32, Role>, bs: Seq<Entity>) -> Seq<(i32, i32)>
    decreases bs.len(),
{
    if bs.len() == 0 {
        Seq::empty()
    } else {
        let rest = damaged_keys(w, roles, bs.drop_last());
        let b = bs.last();
        if !under_repair(roles, b.id) && damage_of(w, b) > 0 {
            rest.push(((-damage_of(w, b)) as i32, b.id))
        } else {
            rest
        }
    }
}

/// The centre of an entity's square.
pub open spec fn entity_center(w: World, e: Entity) -> Vec2i {
    square_center(e.position, w.spec_properties()[spec_type_index(e.entity_type)].size as int)
}

/// Whether the centre of an entity's square can be computed without overflow.
pub open spec fn center_fits(w: World, e: Entity) -> bool {
    let half = trunc_div(w.spec_properties()[spec_type_index(e.entity_type)].size as int, 2);
    in_i32(e.position.x + half) && in_i32(e.position.y + half)
}

/// Whether a builder with role `r` may be sent to repair: it has no role, harvests while
/// harvesters are left, or builds.
pub open spec fn may_repair(r: Role, harvesters: int) -> bool {
    match r {
        Role::Idle => true,
        Role::Harvester { .. } => harvesters > 0,
        Role::BuildingBuilder { .. } => true,
        _ => false,
    }
}

/// For each of the units `us` that may repair, in order: its centre's distance to `c` and its id.
pub open spec fn candidate_keys(w: World, roles: Map<i32, Role>, harvesters: int, us: Seq<Entity>, c: Vec2i) -> Seq<(i32, i32)>
    decreases us.len(),
{
    if us.len() == 0 {
        Seq::empty()
    } else {
        let rest = candidate_keys(w, roles, harvesters, us.drop_last(), c);
        let u = us.last();
        if may_repair(roles[u.id], harvesters) {
            rest.push((manhattan(entity_center(w, u), c) as i32, u.id))
        } else {
            rest
        }
    }
}

/// How many repairers a building gets: one, or for a base half its size (at least one), at
/// most half the builders and half the harvesters.
pub open spec fn repairers_needed(w: World, e: Entity, builders: int, harvesters: int) -> int {
    if spec_is_base(e.entity_type) {
        let half = (w.spec_properties()[spec_type_index(e.entity_type)].size as usize) as int / 2;
        min_int(min_int(if half >= 1 { half } else { 1 }, builders / 2), harvesters / 2)
    } else {
        1
    }
}

/// The roles and the harvester count once each of `ids` in turn repairs `building_id`.
pub open spec fn assign_repairers(roles: Map<i32, Role>, h: int, ids: Seq<i32>, building_id: i32) -> (Map<i32, Role>, int)
    decreases ids.len(),
{
    if ids.len() == 0 {
        (roles, h)
    } else {
        let prev = assign_repairers(roles, h, ids.drop_last(), building_id);
        let id = ids.last();
        (
            prev.0.insert(id, Role::BuildingRepairer { building_id, need_resources: false }),
            if prev.0.dom().contains(id) && prev.0[id] is Harvester {
                prev.1 - 1
            } else {
                prev.1
            },
        )
    }
}

/// One damaged building (its key) in assigning repairers. The state is the roles, the harvesters
/// left and whether the search stopped for want of candidates.
pub open spec fn repair_step(w: World, builders: int, s: (Map<i32, Role>, int, bool), key: (i32, i32)) -> (
    Map<i32, Role>,
    int,
    bool,
) {
    if s.2 {
        s
    } else {
        let b = w.spec_entities()[last_index_of(w.spec_entities(), key.1)];
        let cands = sorted_pairs(
            candidate_keys(w, s.0, s.1, w.selected(EntityQuery::MyBuilderUnits), entity_center(w, b)),
        );
        if cands.len() == 0 {
            (s.0, s.1, true)
        } else {
            let need = repairers_needed(w, b, builders, s.1);
            let ids = cands.take(min_int(need, cands.len() as int)).map_values(|c: (i32, i32)| c.1);
            let a = assign_repairers(s.0, s.1, ids, key.1);
            (a.0, a.1, false)
        }
    }
}

pub open spec fn repair_fold(w: World, builders: int, keys: Seq<(i32, i32)>, s: (Map<i32, Role>, int, bool)) -> (
    Map<i32, Role>,
    int,
    bool,
)
    decreases keys.len(),
{
    if keys.len() == 0 {
        s
    } else {
        repair_step(w, builders, repair_fold(w, builders, keys.drop_last(), s), keys.last())
    }
}

/// The damaged buildings to repair, most damaged first (then by id), once finished repairs end.
pub open spec fn repair_keys(w: World, roles: Map<i32, Role>) -> Seq<(i32, i32)> {
    sorted_pairs(damaged_keys(w, ended_repairs(w, roles), w.selected(EntityQuery::MyBuildings)))
}

/// The roles after a turn of repairs.
pub open spec fn repaired_roles(w: World, roles: Map<i32, Role>) -> Map<i32, Role> {
    let roles1 = ended_repairs(w, roles);
    repair_fold(
        w,
        kind_count(w.spec_entities(), w.spec_my_id(), spec_type_index(EntityType::BuilderUnit)) as int,
        repair_keys(w, roles),
        (roles1, harvesters(roles1) as int, false),
    ).0
}

/// What `repair_buildings` needs to run without a panic or an overflow: the damage of each
/// building nobody repairs fits, and when some building is to be repaired, each builder unit
/// has a role and the centres of builders and buildings and their distances fit.
pub open spec fn repair_fits(w: World, roles: Map<i32, Role>) -> bool {
    let roles1 = ended_repairs(w, roles);
    let bs = w.selected(EntityQuery::MyBuildings);
    let us = w.selected(EntityQuery::MyBuilderUnits);
    let es = w.spec_entities();
    &&& forall|k: int| 0 <= k < bs.len() && !under_repair(roles1, bs[k].id) ==> in_i32(#[trigger] damage_of(w, bs[k]))
    &&& damaged_keys(w, roles1, bs).len() > 0 ==> {
        &&& forall|k: int| 0 <= k < us.len() ==> roles.dom().contains(#[trigger] us[k].id) && center_fits(w, us[k])
        &&& forall|m: int|
            0 <= m < bs.len() ==> #[trigger] center_fits(w, es[last_index_of(es, bs[m].id)])
        &&& forall|k: int, m: int|
            0 <= k < us.len() && 0 <= m < bs.len() ==> manhattan(
                entity_center(w, #[trigger] us[k]),
                entity_center(w, es[last_index_of(es, #[trigger] bs[m].id)]),
            ) <= i32::MAX
    }
}

proof fn lemma_harvesters_insert(roles: Map<i32, Role>, k: i32, r: Role)
    requires
        roles.dom().finite(),
        !(r is Harvester),
    ensures
        roles.insert(k, r).dom().finite(),
        harvesters(roles.insert(k, r)) == harvesters(roles) - (if roles.dom().contains(k) && roles[k] is Harvester {
            1int
        } else {
            0
        }),
{
    broadcast use vstd::set::group_set_axioms;

    let a = harvesting_keys(roles, roles.dom());
    let b = harvesting_keys(roles.insert(k, r), roles.insert(k, r).dom());
    assert(b =~= a.remove(k));
    vstd::set::axiom_set_intersect_finite(roles.dom(), Set::new(|x: i32| roles[x] is Harvester));
}

proof fn lemma_harvesters_positive(roles: Map<i32, Role>, k: i32)
    requires
        roles.dom().finite(),
        roles.dom().contains(k),
        roles[k] is Harvester,
    ensures
        harvesters(roles) >= 1,
{
    broadcast use vstd::set::group_set_axioms;

    let a = harvesting_keys(roles, roles.dom());
    vstd::set::axiom_set_intersect_finite(roles.dom(), Set::new(|x: i32| roles[x] is Harvester));
    assert(a.contains(k));
    assert(a.len() == a.remove(k).len() + 1);
}

/// The keys of the roles.
fn role_keys(roles: &HashMap<i32, Role>) -> (r: Vec<i32>)
    ensures
        r@.no_duplicates(),
        forall|k: i32| r@.contains(k) <==> roles@.dom().contains(k),
{
    let ghost ks = vstd::std_specs::hash::spec_keys_iter(roles).remaining().unref();
    proof {
        let rs = vstd::std_specs::hash::spec_keys_iter(roles).remaining();
        assert(ks.to_set() == roles@.dom());
        assert forall|i: int, j: int| 0 <= i < ks.len() && 0 <= j < ks.len() && i != j implies ks[i] != ks[j] by {
            assert(rs.no_duplicates());
            assert(rs[i] != rs[j]);
        }
    }
    let mut out: Vec<i32> = Vec::new();
    for k in it: roles.keys()
        invariant
            it.seq().unref() == ks,
            out@ == ks.take(it.index()),
    {
        proof {
            assert(ks.take(it.index() + 1) =~= ks.take(it.index()).push(*k));
        }
        out.push(*k);
    }
    proof {
        assert(ks.take(ks.len() as int) =~= ks);
        assert forall|k: i32| out@.contains(k) <==> roles@.dom().contains(k) by {
            assert(ks.to_set().contains(k) <==> ks.contains(k));
        }
    }
    out
}

fn role_finished(world: &World, role: &Role) -> (r: bool)
    requires
        world.wf(),
    ensures
        r == repair_finished(*world, *role),
{
    match role {
        Role::BuildingRepairer { building_id, .. } => match world.find_entity(*building_id) {
            None => true,
            Some(b) => b.health >= world.get_entity_properties(&b.entity_type).max_health,
        },
        _ => false,
    }
}

fn vec_contains(v: &Vec<i32>, x: i32) -> (r: bool)
    ensures
        r == v@.contains(x),
{
    let mut i: usize = 0;
    while i < v.len()
        invariant
            i <= v.len(),
            forall|j: int| 0 <= j < i ==> v@[j] != x,
        decreases v.len() - i,
    {
        if v[i] == x {
            return true;
        }
        i = i + 1;
    }
    false
}

/// Repairers whose building is gone or whole lose their role.
fn end_repairs(world: &World, roles: &mut HashMap<i32, Role>, keys: &Vec<i32>)
    requires
        world.wf(),
        keys@.no_duplicates(),
        forall|k: i32| keys@.contains(k) <==> old(roles)@.dom().contains(k),
    ensures
        final(roles)@ == ended_repairs(*world, old(roles)@),
{
    let ghost r0 = roles@;
    let mut i: usize = 0;
    while i < keys.len()
        invariant
            world.wf(),
            keys@.no_duplicates(),
            forall|k: i32| keys@.contains(k) <==> r0.dom().contains(k),
            i <= keys.len(),
            roles@.dom() == r0.dom(),
            forall|k: i32|
                r0.dom().contains(k) ==> #[trigger] roles@[k] == (if keys@.take(i as int).contains(k) && repair_finished(
                    *world,
                    r0[k],
                ) {
                    Role::Idle
                } else {
                    r0[k]
                }),
        decreases keys.len() - i,
    {
        let k = keys[i];
        proof {
            assert(keys@.contains(k));
            assert(!keys@.take(i as int).contains(k)) by {
                let t0 = keys@.take(i as int);
                if t0.contains(k) {
                    let j = choose|j: int| 0 <= j < t0.len() && t0[j] == k;
                    assert(keys@[j] == keys@[i as int]);
                }
            }
            let t0 = keys@.take(i as int);
            let t1 = keys@.take(i + 1);
            assert forall|x: i32| #[trigger] t1.contains(x) <==> (t0.contains(x) || x == k) by {
                if t1.contains(x) {
                    let j = choose|j: int| 0 <= j < t1.len() && t1[j] == x;
                    if j < i {
                        assert(t0[j] == x);
                    }
                }
                if t0.contains(x) {
                    let j = choose|j: int| 0 <= j < t0.len() && t0[j] == x;
                    assert(t1[j] == x);
                }
                if x == k {
                    assert(t1[i as int] == x);
                }
            }
        }
        let role = *roles.get(&k).unwrap();
        if role_finished(world, &role) {
            roles.insert(k, Role::Idle);
        }
        proof {
            assert(roles@.dom() =~= r0.dom());
        }
        i = i + 1;
    }
    proof {
        assert(keys@.take(keys.len() as int) =~= keys@);
        assert(roles@ =~= ended_repairs(*world, r0));
    }
}

/// The ids of the buildings that some role repairs.
fn repaired_building_ids(roles: &HashMap<i32, Role>, keys: &Vec<i32>) -> (r: Vec<i32>)
    requires
        forall|k: i32| keys@.contains(k) <==> roles@.dom().contains(k),
    ensures
        forall|id: i32| r@.contains(id) <==> under_repair(roles@, id),
{
    let mut out: Vec<i32> = Vec::new();
    let mut i: usize = 0;
    while i < keys.len()
        invariant
            forall|k: i32| keys@.contains(k) <==> roles@.dom().contains(k),
            i <= keys.len(),
            forall|id: i32| #[trigger] out@.contains(id) <==> exists|j: int| 0 <= j < i && #[trigger] repairs(roles@[keys@[j]], id),
        decreases keys.len() - i,
    {
        let k = keys[i];
        proof {
            assert(keys@.contains(k));
        }
        let role = *roles.get(&k).unwrap();
        let ghost prev = out@;
        match role {
            Role::BuildingRepairer { building_id, .. } => {
                out.push(building_id);
            },
            _ => {},
        }
        proof {
            assert forall|id: i32| #[trigger] out@.contains(id) <==> exists|j: int| 0 <= j < i + 1 && #[trigger] repairs(roles@[keys@[j]], id) by {
                assert(prev.contains(id) <==> exists|j: int| 0 <= j < i && #[trigger] repairs(roles@[keys@[j]], id));
                if out@.contains(id) {
                    let m = choose|m: int| 0 <= m < out@.len() && out@[m] == id;
                    if m < prev.len() {
                        assert(prev[m] == id);
                        assert(prev.contains(id));
                    } else {
                        assert(repairs(roles@[keys@[i as int]], id));
                    }
                }
                if exists|j: int| 0 <= j < i + 1 && #[trigger] repairs(roles@[keys@[j]], id) {
                    let j = choose|j: int| 0 <= j < i + 1 && #[trigger] repairs(roles@[keys@[j]], id);
                    if j < i {
                        assert(prev.contains(id));
                        let m = choose|m: int| 0 <= m < prev.len() && prev[m] == id;
                        assert(out@[m] == id);
                    } else {
                        assert(out@[out@.len() - 1] == id);
                    }
                }
            }
        }
        i = i + 1;
    }
    proof {
        assert forall|id: i32| #[trigger] out@.contains(id) <==> under_repair(roles@, id) by {
            if under_repair(roles@, id) {
                let k = choose|k: i32| roles@.dom().contains(k) && #[trigger] repairs(roles@[k], id);
                assert(keys@.contains(k));
                let j = choose|j: int| 0 <= j < keys@.len() && keys@[j] == k;
                assert(repairs(roles@[keys@[j]], id));
            }
            if out@.contains(id) {
                let j = choose|j: int| 0 <= j < keys@.len() && #[trigger] repairs(roles@[keys@[j]], id);
                assert(keys@.contains(keys@[j]));
            }
        }
    }
    out
}


/// For each building of `buildings` that is damaged and that nobody repairs: its damage negated
/// and its id.
fn damaged_building_keys(world: &World, roles: &HashMap<i32, Role>, assigned: &Vec<i32>, buildings: &Vec<Entity>) -> (r: Vec<(i32, i32)>)
    requires
        world.wf(),
        forall|id: i32| assigned@.contains(id) <==> under_repair(roles@, id),
        forall|k: int|
            0 <= k < buildings.len() && !under_repair(roles@, buildings@[k].id) ==> in_i32(
                #[trigger] damage_of(*world, buildings@[k]),
            ),
    ensures
        r@ == damaged_keys(*world, roles@, buildings@),
{
    let mut out: Vec<(i32, i32)> = Vec::new();
    let mut i: usize = 0;
    while i < buildings.len()
        invariant
            world.wf(),
            forall|id: i32| assigned@.contains(id) <==> under_repair(roles@, id),
            forall|k: int|
                0 <= k < buildings.len() && !under_repair(roles@, buildings@[k].id) ==> in_i32(
                    #[trigger] damage_of(*world, buildings@[k]),
                ),
            i <= buildings.len(),
            out@ == damaged_keys(*world, roles@, buildings@.take(i as int)),
        decreases buildings.len() - i,
    {
        proof {
            assert(buildings@.take(i + 1).drop_last() =~= buildings@.take(i as int));
        }
        let b = buildings[i];
        if !vec_contains(assigned, b.id) {
            proof {
                assert(in_i32(damage_of(*world, buildings@[i as int])));
            }
            let damage = world.get_entity_properties(&b.entity_type).max_health - b.health;
            if damage > 0 {
                out.push((-damage, b.id));
            }
        }
        i = i + 1;
    }
    proof {
        assert(buildings@.take(buildings.len() as int) =~= buildings@);
    }
    out
}

/// Whether each of the units has a role, and its centre and that centre's distance to `center`
/// fit.
pub open spec fn candidates_fit(w: World, roles: Map<i32, Role>, us: Seq<Entity>, center: Vec2i) -> bool {
    forall|k: int|
        0 <= k < us.len() ==> roles.dom().contains(#[trigger] us[k].id) && center_fits(w, us[k]) && manhattan(
            entity_center(w, us[k]),
            center,
        ) <= i32::MAX
}

/// For each unit of `units` that may repair: its centre's distance to `center`, and its id.
fn repair_candidates(world: &World, roles: &HashMap<i32, Role>, harvesters: usize, units: &Vec<Entity>, center: Vec2i) -> (r: Vec<(i32, i32)>)
    requires
        world.wf(),
        candidates_fit(*world, roles@, units@, center),
    ensures
        r@ == candidate_keys(*world, roles@, harvesters as int, units@, center),
{
    let mut out: Vec<(i32, i32)> = Vec::new();
    let mut i: usize = 0;
    while i < units.len()
        invariant
            world.wf(),
            candidates_fit(*world, roles@, units@, center),
            i <= units.len(),
            out@ == candidate_keys(*world, roles@, harvesters as int, units@.take(i as int), center),
        decreases units.len() - i,
    {
        proof {
            assert(units@.take(i + 1).drop_last() =~= units@.take(i as int));
        }
        let u = units[i];
        proof {
            assert(roles@.dom().contains(units@[i as int].id));
        }
        let may = match *roles.get(&u.id).unwrap() {
            Role::Idle => true,
            Role::Harvester { .. } => harvesters > 0,
            Role::BuildingBuilder { .. } => true,
            _ => false,
        };
        if may {
            proof {
                assert(center_fits(*world, units@[i as int]));
            }
            let half = world.get_entity_properties(&u.entity_type).size / 2;
            let c = u.position + Vec2i::both(half);
            out.push((c.distance(center), u.id));
        }
        i = i + 1;
    }
    proof {
        assert(units@.take(units.len() as int) =~= units@);
    }
    out
}

/// Repairers of buildings: repairers whose building is gone or whole lose their role; then each
/// damaged building that nobody repairs, most damaged first (then by id), takes the builders
/// nearest to it (by the distance between centres, then by id) among those with no role, those
/// that build and, while harvesters are left, those that harvest: one builder, or for a base
/// half its size (at least one), at most half the builders and half the harvesters. The search
/// stops at the first building that finds no builder.
pub fn repair_buildings(world: &World, roles: &mut HashMap<i32, Role>) -> (r: TaskStatus)
    requires
        world.wf(),
        repair_fits(*world, old(roles)@),
    ensures
        r == TaskStatus::Wait,
        final(roles)@ == repaired_roles(*world, old(roles)@),
{
    let ghost w = *world;
    let ghost r0 = roles@;
    let keys = role_keys(roles);
    end_repairs(world, roles, &keys);
    let ghost roles1 = roles@;
    proof {
        assert forall|k: i32| keys@.contains(k) <==> roles@.dom().contains(k) by {}
    }
    let assigned = repaired_building_ids(roles, &keys);
    let buildings = world.my_buildings();
    let mut damaged = damaged_building_keys(world, roles, &assigned, &buildings);
    let ghost unsorted = damaged@;
    sort_pairs(&mut damaged);
    let mut left = count_harvesters(roles);
    let builders = world.get_my_entity_count_of(&EntityType::BuilderUnit);
    let units = world.my_builder_units();
    let ghost es = w.spec_entities();
    let ghost bs = buildings@;
    let ghost us = units@;
    let ghost s0 = (roles1, harvesters(roles1) as int, false);
    proof {
        lemma_sorted_pairs(unsorted);
        lemma_damaged_keys_ids(w, roles1, bs);
        lemma_picked_members(es, EntityQuery::MyBuildings, w.spec_my_id(), w.spec_properties());
        assert(damaged@ == repair_keys(w, r0));
        assert(damaged@.take(damaged@.len() as int) =~= damaged@);
    }
    let mut i: usize = 0;
    while i < damaged.len()
        invariant_except_break
            repair_fold(w, builders as int, damaged@.take(i as int), s0) == (roles@, left as int, false),
        invariant
            w == *world,
            world.wf(),
            repair_fits(w, r0),
            roles1 == ended_repairs(w, r0),
            damaged@ == repair_keys(w, r0),
            damaged@.take(damaged@.len() as int) == damaged@,
            unsorted == damaged_keys(w, roles1, bs),
            bs == w.selected(EntityQuery::MyBuildings),
            us == w.selected(EntityQuery::MyBuilderUnits),
            units@ == us,
            es == w.spec_entities(),
            builders == kind_count(es, w.spec_my_id(), spec_type_index(EntityType::BuilderUnit)),
            s0 == (roles1, harvesters(roles1) as int, false),
            unsorted.len() == damaged@.len(),
            forall|y: (i32, i32)| #[trigger] damaged@.contains(y) <==> unsorted.contains(y),
            forall|k: int| 0 <= k < unsorted.len() ==> exists|m: int| 0 <= m < bs.len() && #[trigger] unsorted[k].1 == bs[m].id,
            forall|k: int| 0 <= k < bs.len() ==> es.contains(#[trigger] bs[k]),
            forall|x: i32| roles1.dom().contains(x) ==> #[trigger] roles@.dom().contains(x),
            roles1.dom() == r0.dom(),
            left == harvesters(roles@),
            i <= damaged.len(),
        ensures
            repair_fold(w, builders as int, damaged@, s0).0 == roles@,
        decreases damaged.len() - i,
    {
        proof {
            assert(damaged@.take(i + 1).drop_last() =~= damaged@.take(i as int));
            assert(damaged@.contains(damaged@[i as int]));
            assert(unsorted.contains(damaged@[i as int]));
        }
        let building_id = damaged[i].1;
        let ghost m = choose|m: int| 0 <= m < bs.len() && bs[m].id == building_id;
        proof {
            let k = choose|k: int| 0 <= k < unsorted.len() && unsorted[k] == damaged@[i as int];
            assert(exists|m: int| 0 <= m < bs.len() && #[trigger] unsorted[k].1 == bs[m].id);
            assert(es.contains(bs[m]));
            let e = choose|e: int| 0 <= e < es.len() && es[e] == bs[m];
            lemma_last_index_bounds(es, building_id);
            assert(es[e].id == building_id);
            assert(unsorted.len() > 0);
            assert(center_fits(w, es[last_index_of(es, bs[m].id)]));
        }
        let building = world.get_entity(building_id);
        let bsize = world.get_entity_properties(&building.entity_type).size;
        let center = building.position + Vec2i::both(bsize / 2);
        proof {
            assert forall|k: int| 0 <= k < us.len() implies roles@.dom().contains(#[trigger] us[k].id) && center_fits(w, us[k])
                && manhattan(entity_center(w, us[k]), center) <= i32::MAX by {
                assert(roles1.dom().contains(us[k].id));
                assert(manhattan(entity_center(w, us[k]), entity_center(w, es[last_index_of(es, bs[m].id)])) <= i32::MAX);
            }
        }
        let mut candidates = repair_candidates(world, roles, left, &units, center);
        let ghost cands0 = candidates@;
        sort_pairs(&mut candidates);
        if candidates.len() == 0 {
            proof {
                lemma_repair_fold_stopped(w, builders as int, damaged@, s0, i + 1);
            }
            break;
        }
        let need = if crate::entity_type::is_entity_type_base(&building.entity_type) {
            let half = (bsize as usize) / 2;
            let a = if half >= 1 { half } else { 1 };
            let b = if a <= builders / 2 { a } else { builders / 2 };
            if b <= left / 2 { b } else { left / 2 }
        } else {
            1
        };
        let n = if need <= candidates.len() { need } else { candidates.len() };
        let ghost ids = candidates@.take(n as int).map_values(|c: (i32, i32)| c.1);
        let ghost start = (roles@, left as int);
        let mut j: usize = 0;
        while j < n
            invariant
                n <= candidates.len(),
                ids == candidates@.take(n as int).map_values(|c: (i32, i32)| c.1),
                j <= n,
                assign_repairers(start.0, start.1, ids.take(j as int), building_id) == (roles@, left as int),
                forall|x: i32| roles1.dom().contains(x) ==> #[trigger] roles@.dom().contains(x),
                left == harvesters(roles@),
            decreases n - j,
        {
            proof {
                assert(ids.take(j + 1).drop_last() =~= ids.take(j as int));
                assert(ids.take(j + 1).last() == candidates@[j as int].1);
            }
            let id = candidates[j].1;
            let is_harvester = match roles.get(&id) {
                Some(Role::Harvester { .. }) => true,
                _ => false,
            };
            proof {
                lemma_harvesters_insert(roles@, id, Role::BuildingRepairer { building_id, need_resources: false });
                if is_harvester {
                    lemma_harvesters_positive(roles@, id);
                }
            }
            if is_harvester {
                left = left - 1;
            }
            roles.insert(id, Role::BuildingRepairer { building_id, need_resources: false });
            j = j + 1;
        }
        proof {
            assert(ids.take(n as int) =~= ids);
            assert(bs[m].id == building_id);
        }
        i = i + 1;
    }
    TaskStatus::Wait
}

proof fn lemma_repair_fold_stopped(
    w: World,
    builders: int,
    keys: Seq<(i32, i32)>,
    s: (Map<i32, Role>, int, bool),
    k: int,
)
    requires
        0 <= k <= keys.len(),
        repair_fold(w, builders, keys.take(k), s).2,
    ensures
        repair_fold(w, builders, keys, s) == repair_fold(w, builders, keys.take(k), s),
    decreases keys.len() - k,
{
    if k < keys.len() {
        assert(keys.take(k + 1).drop_last() =~= keys.take(k));
        lemma_repair_fold_stopped(w, builders, keys, s, k + 1);
    } else {
        assert(keys.take(k) =~= keys);
    }
}

proof fn lemma_damaged_keys_ids(w: World, roles: Map<i32, Role>, bs: Seq<Entity>)
    ensures
        forall|k: int|
            0 <= k < damaged_keys(w, roles, bs).len() ==> exists|m: int|
                0 <= m < bs.len() && #[trigger] damaged_keys(w, roles, bs)[k].1 == bs[m].id,
    decreases bs.len(),
{
    if bs.len() > 0 {
        let front = bs.drop_last();
        lemma_damaged_keys_ids(w, roles, front);
        let d = damaged_keys(w, roles, bs);
        let f = damaged_keys(w, roles, front);
        assert forall|k: int| 0 <= k < d.len() implies exists|m: int| 0 <= m < bs.len() && #[trigger] d[k].1 == bs[m].id by {
            if k < f.len() {
                assert(d[k] == f[k]);
                let m = choose|m: int| 0 <= m < front.len() && #[trigger] f[k].1 == front[m].id;
                assert(bs[m] == front[m]);
            } else {
                assert(d[k].1 == bs[bs.len() - 1].id);
            }
        }
    }
}

/// The resources the map shows on those of `cells` that lie on it, with their positions, in
/// the cells' order.
pub open spec fn resources_in(w: World, cells: Seq<Vec2i>) -> Seq<(i32, Vec2i)>
    decreases cells.len(),
{
    if cells.len() == 0 {
        Seq::empty()
    } else {
        let rest = resources_in(w, cells.drop_last());
        if !w.spec_map().spec_contains(cells.last()) {
            rest
        } else {
        match w.spec_map().tile_at(cells.last()) {
            Tile::Entity(id) => {
                let e = w.spec_entities()[last_index_of(w.spec_entities(), id)];
                if e.entity_type == EntityType::Resource {
                    rest.push((id, e.position))
                } else {
                    rest
                }
            },
            _ => rest,
        }
        }
    }
}

/// The ids of `ids` that the world knows, in order.
pub open spec fn known_ids(w: World, ids: Seq<i32>) -> Seq<i32>
    decreases ids.len(),
{
    if ids.len() == 0 {
        ids
    } else {
        let rest = known_ids(w, ids.drop_last());
        if last_index_of(w.spec_entities(), ids.last()) >= 0 {
            rest.push(ids.last())
        } else {
            rest
        }
    }
}

proof fn lemma_known_ids_same(a: World, b: World, ids: Seq<i32>)
    requires
        a.spec_entities() == b.spec_entities(),
    ensures
        known_ids(a, ids) == known_ids(b, ids),
    decreases ids.len(),
{
    if ids.len() > 0 {
        lemma_known_ids_same(a, b, ids.drop_last());
    }
}

/// The roles once each id of `ids` in turn has no role.
pub open spec fn idled(roles: Map<i32, Role>, ids: Seq<i32>) -> Map<i32, Role>
    decreases ids.len(),
{
    if ids.len() == 0 {
        roles
    } else {
        idled(roles, ids.drop_last()).insert(ids.last(), Role::Idle)
    }
}

/// The roles once each cleaner of `ids` in turn whose resource the world no longer knows has no
/// role.
pub open spec fn unclean(w: World, roles: Map<i32, Role>, ids: Seq<i32>) -> Map<i32, Role>
    decreases ids.len(),
{
    if ids.len() == 0 {
        roles
    } else {
        let prev = unclean(w, roles, ids.drop_last());
        match prev[ids.last()] {
            Role::Cleaner { resource_id } => if last_index_of(w.spec_entities(), resource_id) < 0 {
                prev.insert(ids.last(), Role::Idle)
            } else {
                prev
            },
            _ => prev,
        }
    }
}

/// The ids of `ids` whose role is cleaning, in order.
pub open spec fn cleaning_ids(roles: Map<i32, Role>, ids: Seq<i32>) -> Seq<i32>
    decreases ids.len(),
{
    if ids.len() == 0 {
        ids
    } else {
        let rest = cleaning_ids(roles, ids.drop_last());
        if roles[ids.last()] is Cleaner {
            rest.push(ids.last())
        } else {
            rest
        }
    }
}

/// Whether a builder is free to clean: it has no role or harvests.
pub open spec fn free_builder(roles: Map<i32, Role>, b: Entity) -> bool {
    roles[b.id] == Role::Idle || roles[b.id] is Harvester
}

/// The first of the free builders nearest to `p`, if any.
pub open spec fn nearest_free_builder(roles: Map<i32, Role>, builders: Seq<Entity>, p: Vec2i) -> Option<Entity>
    decreases builders.len(),
{
    if builders.len() == 0 {
        None
    } else {
        let r = nearest_free_builder(roles, builders.drop_last(), p);
        let b = builders.last();
        if !free_builder(roles, b) {
            r
        } else {
            match r {
                Some(q) => if manhattan(b.position, p) < manhattan(q.position, p) {
                    Some(b)
                } else {
                    r
                },
                None => Some(b),
            }
        }
    }
}

/// One resource in assigning cleaners, until `need` of them clean. The state is the cleaners,
/// the roles, and whether enough clean.
pub open spec fn clean_step(builders: Seq<Entity>, need: int, s: (Seq<i32>, Map<i32, Role>, bool), r: (i32, Vec2i)) -> (
    Seq<i32>,
    Map<i32, Role>,
    bool,
) {
    if s.2 {
        s
    } else {
        match nearest_free_builder(s.1, builders, r.1) {
            Some(b) => {
                let ids = s.0.push(b.id);
                (ids, s.1.insert(b.id, Role::Cleaner { resource_id: r.0 }), ids.len() >= need)
            },
            None => s,
        }
    }
}

pub open spec fn clean_fold(builders: Seq<Entity>, need: int, resources: Seq<(i32, Vec2i)>, s: (Seq<i32>, Map<i32, Role>, bool)) -> (
    Seq<i32>,
    Map<i32, Role>,
    bool,
)
    decreases resources.len(),
{
    if resources.len() == 0 {
        s
    } else {
        clean_step(builders, need, clean_fold(builders, need, resources.drop_last(), s), resources.last())
    }
}

impl ClearAreaTask {
    /// The cells of the task's square.
    pub open spec fn cells(self) -> Seq<Vec2i> {
        rect_cells(
            self.spec_position().x as int,
            self.spec_position().x + self.spec_size(),
            self.spec_position().y as int,
            self.spec_position().y + self.spec_size(),
        )
    }

    /// How many builders the task wants: a third of the player's builders, at most the side
    /// of the square.
    pub open spec fn spec_need(self, w: World) -> int {
        let third = kind_count(w.spec_entities(), w.spec_my_id(), 3) / 3;
        let side = (self.spec_size() as usize) as int;
        if third <= side {
            third as int
        } else {
            side
        }
    }

    /// The cleaners kept, the roles and the status after a turn, as the phases of the turn
    /// leave them (see `update`).
    pub open spec fn turn(self, w: World, roles: Map<i32, Role>) -> (Seq<i32>, Map<i32, Role>, TaskStatus) {
        let ids1 = known_ids(w, self.spec_builder_ids());
        let res = resources_in(w, self.cells());
        if res.len() == 0 {
            (ids1, idled(roles, ids1), TaskStatus::Done)
        } else {
            let roles2 = unclean(w, roles, ids1);
            let ids2 = cleaning_ids(roles2, ids1);
            let need = self.spec_need(w);
            let ids3 = if ids2.len() > need { ids2.take(need) } else { ids2 };
            let roles3 = if ids2.len() > need { idled(roles2, ids2.skip(need).reverse()) } else { roles2 };
            if ids3.len() >= need {
                (ids3, roles3, TaskStatus::Wait)
            } else {
                let f = clean_fold(w.selected(EntityQuery::MyBuilderUnits), need, res, (ids3, roles3, false));
                (f.0, f.1, TaskStatus::Wait)
            }
        }
    }

    /// A turn of clearing the square: cleaners the world no longer knows leave the task. With no
    /// resource left on the square the cleaners lose their role and the task is done. Otherwise
    /// cleaners whose resource is gone lose their role and leave; cleaners beyond the number the
    /// task wants lose their role, the last first; and while too few clean, each resource on the
    /// square in turn takes the first free builder nearest to it.
    #[verifier::rlimit(40)]
    pub fn update(&mut self, world: &World, roles: &mut HashMap<i32, Role>) -> (r: TaskStatus)
        requires
            world.wf(),
            world.distances_fit(),
            in_i32(old(self).spec_position().x + old(self).spec_size()),
            in_i32(old(self).spec_position().y + old(self).spec_size()),
            forall|c: Vec2i|
                #[trigger] old(self).cells().contains(c) && world.spec_map().spec_contains(c) ==> (world.spec_map().tile_at(c) matches Tile::Entity(id) ==> last_index_of(
                    world.spec_entities(),
                    id,
                ) >= 0),
            resources_in(*world, old(self).cells()).len() > 0 ==> forall|k: int|
                0 <= k < known_ids(*world, old(self).spec_builder_ids()).len() ==> old(roles)@.contains_key(
                    #[trigger] known_ids(*world, old(self).spec_builder_ids())[k],
                ),
            resources_in(*world, old(self).cells()).len() > 0 && cleaning_ids(
                unclean(*world, old(roles)@, known_ids(*world, old(self).spec_builder_ids())),
                known_ids(*world, old(self).spec_builder_ids()),
            ).len() < old(self).spec_need(*world) ==> forall|k: int|
                0 <= k < world.selected(EntityQuery::MyBuilderUnits).len() ==> old(roles)@.contains_key(
                    #[trigger] world.selected(EntityQuery::MyBuilderUnits)[k].id,
                ),
        ensures
            final(self).spec_position() == old(self).spec_position(),
            final(self).spec_size() == old(self).spec_size(),
            final(self).spec_builder_ids() == old(self).turn(*world, old(roles)@).0,
            final(roles)@ == old(self).turn(*world, old(roles)@).1,
            r == old(self).turn(*world, old(roles)@).2,
    {
        let ghost w = *world;
        let ghost roles0 = roles@;
        let ghost ids0 = self.builder_ids@;
        let ghost pos0 = self.position;
        let ghost size0 = self.size;
        let mut kept: Vec<i32> = Vec::new();
        let mut i: usize = 0;
        while i < self.builder_ids.len()
            invariant
                world.wf(),
                w == *world,
                self.builder_ids@ == ids0,
                i <= self.builder_ids.len(),
                kept@ == known_ids(w, ids0.take(i as int)),
            decreases self.builder_ids.len() - i,
        {
            proof {
                assert(ids0.take(i + 1).drop_last() =~= ids0.take(i as int));
            }
            let id = self.builder_ids[i];
            if world.contains_entity(id) {
                kept.push(id);
            }
            i = i + 1;
        }
        proof {
            assert(ids0.take(ids0.len() as int) =~= ids0);
        }
        self.builder_ids = kept;
        let ghost ids1 = self.builder_ids@;
        let cells = crate::grid::visit_square(self.position, self.size);
        let ghost all_cells = cells@;
        let mut resources: Vec<(i32, Vec2i)> = Vec::new();
        let mut c: usize = 0;
        while c < cells.len()
            invariant
                world.wf(),
                w == *world,
                all_cells == cells@,
                forall|q: Vec2i|
                    #[trigger] all_cells.contains(q) && world.spec_map().spec_contains(q) ==> (world.spec_map().tile_at(q) matches Tile::Entity(id) ==> last_index_of(
                        world.spec_entities(),
                        id,
                    ) >= 0),
                c <= cells.len(),
                resources@ == resources_in(w, all_cells.take(c as int)),
            decreases cells.len() - c,
        {
            proof {
                assert(all_cells.take(c + 1).drop_last() =~= all_cells.take(c as int));
                assert(all_cells.contains(all_cells[c as int]));
            }
            let cell = cells[c];
            if world.contains(cell) {
                match world.get_tile(cell) {
                    Tile::Entity(entity_id) => {
                        let entity = world.get_entity(entity_id);
                        if entity.entity_type == EntityType::Resource {
                            resources.push((entity_id, entity.position));
                        }
                    },
                    _ => {},
                }
            }
            c = c + 1;
        }
        proof {
            assert(all_cells.take(all_cells.len() as int) =~= all_cells);
        }
        if resources.len() == 0 {
            let mut k: usize = 0;
            while k < self.builder_ids.len()
                invariant
                    self.builder_ids@ == ids1,
                    k <= self.builder_ids.len(),
                    roles@ == idled(roles0, ids1.take(k as int)),
                decreases self.builder_ids.len() - k,
            {
                proof {
                    assert(ids1.take(k + 1).drop_last() =~= ids1.take(k as int));
                }
                roles.insert(self.builder_ids[k], Role::Idle);
                k = k + 1;
            }
            proof {
                assert(ids1.take(ids1.len() as int) =~= ids1);
            }
            return TaskStatus::Done;
        }
        let mut k: usize = 0;
        while k < self.builder_ids.len()
            invariant
                world.wf(),
                w == *world,
                self.builder_ids@ == ids1,
                forall|j: int| 0 <= j < ids1.len() ==> roles0.contains_key(#[trigger] ids1[j]),
                k <= self.builder_ids.len(),
                roles@ == unclean(w, roles0, ids1.take(k as int)),
                roles@.dom() == roles0.dom(),
            decreases self.builder_ids.len() - k,
        {
            proof {
                assert(ids1.take(k + 1).drop_last() =~= ids1.take(k as int));
                assert(roles0.contains_key(ids1[k as int]));
            }
            let id = self.builder_ids[k];
            match *roles.get(&id).unwrap() {
                Role::Cleaner { resource_id } => {
                    if !world.contains_entity(resource_id) {
                        roles.insert(id, Role::Idle);
                        proof {
                            assert(roles@.dom() =~= roles0.dom());
                        }
                    }
                },
                _ => {},
            }
            k = k + 1;
        }
        proof {
            assert(ids1.take(ids1.len() as int) =~= ids1);
        }
        let ghost roles2 = roles@;
        let mut cleaners: Vec<i32> = Vec::new();
        let mut k: usize = 0;
        while k < self.builder_ids.len()
            invariant
                self.builder_ids@ == ids1,
                roles@ == roles2,
                forall|j: int| 0 <= j < ids1.len() ==> roles2.contains_key(#[trigger] ids1[j]),
                k <= self.builder_ids.len(),
                cleaners@ == cleaning_ids(roles2, ids1.take(k as int)),
            decreases self.builder_ids.len() - k,
        {
            proof {
                assert(ids1.take(k + 1).drop_last() =~= ids1.take(k as int));
                assert(roles2.contains_key(ids1[k as int]));
            }
            let id = self.builder_ids[k];
            let is_cleaner = match *roles.get(&id).unwrap() {
                Role::Cleaner { .. } => true,
                _ => false,
            };
            if is_cleaner {
                cleaners.push(id);
            }
            k = k + 1;
        }
        proof {
            assert(ids1.take(ids1.len() as int) =~= ids1);
        }
        self.builder_ids = cleaners;
        let ghost ids2 = self.builder_ids@;
        let third = world.get_my_entity_count_of(&EntityType::BuilderUnit) / 3;
        let side = self.size as usize;
        let need = if third <= side { third } else { side };
        while self.builder_ids.len() > need
            invariant
                self.position == pos0,
                self.size == size0,
                need == self.spec_need(w),
                forall|x: i32| roles2.contains_key(x) ==> #[trigger] roles@.contains_key(x),
                ids2.len() > need ==> {
                    &&& need <= self.builder_ids@.len() <= ids2.len()
                    &&& self.builder_ids@ == ids2.take(self.builder_ids@.len() as int)
                    &&& roles@ == idled(roles2, ids2.skip(self.builder_ids@.len() as int).reverse())
                },
                ids2.len() <= need ==> self.builder_ids@ == ids2 && roles@ == roles2,
            decreases self.builder_ids.len(),
        {
            let ghost n = self.builder_ids@.len();
            let id = self.builder_ids.pop().unwrap();
            roles.insert(id, Role::Idle);
            proof {
                assert(ids2.len() > need);
                assert(ids2.take(n - 1) =~= ids2.take(n as int).drop_last());
                assert(ids2.skip(n - 1).reverse().drop_last() =~= ids2.skip(n as int).reverse());
                assert(ids2.skip(n - 1).reverse().last() == ids2[n - 1]);
            }
        }
        proof {
            if ids2.len() > need {
                assert(self.builder_ids@.len() == need);
            }
        }
        if self.builder_ids.len() >= need {
            return TaskStatus::Wait;
        }
        let ghost ids3 = self.builder_ids@;
        let ghost roles3 = roles@;
        let builders = world.my_builder_units();
        let ghost all = world.spec_entities();
        proof {
            lemma_picked_members(all, EntityQuery::MyBuilderUnits, world.spec_my_id(), world.spec_properties());
            assert(ids2.len() < need);
        }
        proof {
            lemma_resources_in_positions(w, all_cells);
            assert(resources@.take(resources@.len() as int) =~= resources@);
            assert forall|k: int| 0 <= k < builders@.len() implies roles@.contains_key(#[trigger] builders@[k].id) by {
                assert(roles0.contains_key(builders@[k].id));
                assert(roles2.contains_key(builders@[k].id));
            }
        }
        let mut j: usize = 0;
        while j < resources.len()
            invariant_except_break
                ({
                    let f = clean_fold(builders@, need as int, resources@.take(j as int), (ids3, roles3, false));
                    &&& f.0 == self.builder_ids@
                    &&& f.1 == roles@
                    &&& !f.2
                }),
            invariant
                self.position == pos0,
                self.size == size0,
                world.wf(),
                world.distances_fit(),
                w == *world,
                all == world.spec_entities(),
                builders@ == w.selected(EntityQuery::MyBuilderUnits),
                forall|k: int| 0 <= k < builders@.len() ==> all.contains(#[trigger] builders@[k]),
                forall|k: int| 0 <= k < builders@.len() ==> roles@.contains_key(#[trigger] builders@[k].id),
                forall|k: int| 0 <= k < resources@.len() ==> exists|e: int| 0 <= e < all.len() && all[e].position == #[trigger] resources@[k].1,
                resources@ == resources_in(w, all_cells),
                resources@.take(resources@.len() as int) == resources@,
                j <= resources.len(),
            ensures
                ({
                    let f = clean_fold(builders@, need as int, resources@, (ids3, roles3, false));
                    &&& f.0 == self.builder_ids@
                    &&& f.1 == roles@
                }),
            decreases resources.len() - j,
        {
            proof {
                assert(resources@.take(j + 1).drop_last() =~= resources@.take(j as int));
            }
            let (resource_id, resource_position) = resources[j];
            proof {
                assert(exists|e: int| 0 <= e < all.len() && all[e].position == resources@[j as int].1);
            }
            let found = nearest_free(world, roles, &builders, resource_position);
            match found {
                Some(builder) => {
                    roles.insert(builder.id, Role::Cleaner { resource_id });
                    self.builder_ids.push(builder.id);
                    if self.builder_ids.len() >= need {
                        proof {
                            lemma_clean_fold_done(builders@, need as int, resources@, (ids3, roles3, false), j + 1);
                        }
                        break;
                    }
                },
                None => {},
            }
            j = j + 1;
        }
        TaskStatus::Wait
    }
}


/// The first of the free builders of `builders` nearest to `p`.
fn nearest_free(world: &World, roles: &HashMap<i32, Role>, builders: &Vec<Entity>, p: Vec2i) -> (r: Option<Entity>)
    requires
        world.wf(),
        world.distances_fit(),
        forall|k: int| 0 <= k < builders@.len() ==> world.spec_entities().contains(#[trigger] builders@[k]),
        forall|k: int| 0 <= k < builders@.len() ==> roles@.contains_key(#[trigger] builders@[k].id),
        exists|e: int| 0 <= e < world.spec_entities().len() && world.spec_entities()[e].position == p,
    ensures
        r == nearest_free_builder(roles@, builders@, p),
        r matches Some(b) ==> builders@.contains(b),
{
    let ghost all = world.spec_entities();
    let mut best: Option<Entity> = None;
    let mut i: usize = 0;
    while i < builders.len()
        invariant
            world.wf(),
            world.distances_fit(),
            all == world.spec_entities(),
            forall|k: int| 0 <= k < builders@.len() ==> all.contains(#[trigger] builders@[k]),
            forall|k: int| 0 <= k < builders@.len() ==> roles@.contains_key(#[trigger] builders@[k].id),
            exists|e: int| 0 <= e < all.len() && all[e].position == p,
            i <= builders.len(),
            best == nearest_free_builder(roles@, builders@.take(i as int), p),
            best matches Some(q) ==> builders@.contains(q),
        decreases builders.len() - i,
    {
        proof {
            assert(builders@.take(i + 1).drop_last() =~= builders@.take(i as int));
            assert(builders@.take(i + 1).last() == builders@[i as int]);
        }
        let b = builders[i];
        proof {
            assert(all.contains(builders@[i as int]));
            assert(roles@.contains_key(builders@[i as int].id));
        }
        let role = *roles.get(&b.id).unwrap();
        let free = match role {
            Role::Idle => true,
            Role::Harvester { .. } => true,
            _ => false,
        };
        if free {
            proof {
                let kb = choose|k: int| 0 <= k < all.len() && all[k] == b;
                let e = choose|e: int| 0 <= e < all.len() && all[e].position == p;
                assert(manhattan(all[kb].position, all[e].position) <= i32::MAX);
            }
            let closer = match best {
                Some(q) => {
                    proof {
                        let kq0 = choose|k: int| 0 <= k < builders@.len() && builders@[k] == q;
                        assert(all.contains(builders@[kq0]));
                        let kq = choose|k: int| 0 <= k < all.len() && all[k] == q;
                        let e = choose|e: int| 0 <= e < all.len() && all[e].position == p;
                        assert(manhattan(all[kq].position, all[e].position) <= i32::MAX);
                    }
                    b.position.distance(p) < q.position.distance(p)
                },
                None => true,
            };
            if closer {
                best = Some(b);
                proof {
                    assert(builders@[i as int] == b);
                }
            }
        }
        i = i + 1;
    }
    proof {
        assert(builders@.take(builders.len() as int) =~= builders@);
    }
    best
}

proof fn lemma_clean_fold_done(
    builders: Seq<Entity>,
    need: int,
    resources: Seq<(i32, Vec2i)>,
    s: (Seq<i32>, Map<i32, Role>, bool),
    k: int,
)
    requires
        0 <= k <= resources.len(),
        clean_fold(builders, need, resources.take(k), s).2,
    ensures
        clean_fold(builders, need, resources, s) == clean_fold(builders, need, resources.take(k), s),
    decreases resources.len() - k,
{
    if k < resources.len() {
        assert(resources.take(k + 1).drop_last() =~= resources.take(k));
        lemma_clean_fold_done(builders, need, resources, s, k + 1);
    } else {
        assert(resources.take(k) =~= resources);
    }
}

proof fn lemma_resources_in_positions(w: World, cells: Seq<Vec2i>)
    requires
        forall|c: Vec2i|
            #[trigger] cells.contains(c) && w.spec_map().spec_contains(c) ==> (w.spec_map().tile_at(c) matches Tile::Entity(id) ==> last_index_of(
                w.spec_entities(),
                id,
            ) >= 0),
    ensures
        forall|k: int|
            0 <= k < resources_in(w, cells).len() ==> exists|e: int|
                0 <= e < w.spec_entities().len() && w.spec_entities()[e].position == #[trigger] resources_in(w, cells)[k].1,
    decreases cells.len(),
{
    if cells.len() > 0 {
        let front = cells.drop_last();
        assert forall|c: Vec2i| #[trigger] front.contains(c) && w.spec_map().spec_contains(c) implies (w.spec_map().tile_at(c) matches Tile::Entity(id) ==> last_index_of(
            w.spec_entities(),
            id,
        ) >= 0) by {
            let j = choose|j: int| 0 <= j < front.len() && front[j] == c;
            assert(cells[j] == c);
            assert(cells.contains(c));
        }
        lemma_resources_in_positions(w, front);
        let rest = resources_in(w, front);
        assert(cells.contains(cells.last())) by {
            assert(cells[cells.len() - 1] == cells.last());
        }
        assert forall|k: int| 0 <= k < resources_in(w, cells).len() implies exists|e: int|
            0 <= e < w.spec_entities().len() && w.spec_entities()[e].position == #[trigger] resources_in(w, cells)[k].1 by {
            if k < rest.len() {
                assert(resources_in(w, cells)[k] == rest[k]);
            } else {
                match w.spec_map().tile_at(cells.last()) {
                    Tile::Entity(id) => {
                        crate::world::lemma_last_index_bounds(w.spec_entities(), id);
                        let e = last_index_of(w.spec_entities(), id);
                        assert(w.spec_entities()[e].position == resources_in(w, cells)[k].1);
                    },
                    _ => {},
                }
            }
        }
    }
}

} // verus!
