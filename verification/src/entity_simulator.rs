use vstd::prelude::*;
use crate::entity_type::{spec_type_index, AttackProperties, EntityProperties, EntityType, ENTITY_TYPES_COUNT};
use crate::grid::{in_map, position_to_index};
use crate::path::{back_path, cell_index, connected, first_hit, index_position, lemma_search_tree_reaches_src, visit_reversed_shortest_path, walk};
use crate::range::FindPathTarget;
use crate::search::{a_star, a_star_run, distances_fit, entry_costs_fit, lemma_branch_path, passable_cells, search_outcome};
use crate::rect::Rect;
use crate::vec2::{abs_int, in_i32, manhattan, Vec2i};
use rand::rngs::StdRng;
use rand::seq::SliceRandom;

verus! {

/// A player's tally in a simulated fight.
#[derive(Clone, Copy, Debug, PartialEq, Eq)]
pub struct SimulatedPlayer {
    pub id: i32,
    pub score: i32,
    pub damage_done: i32,
    pub damage_received: i32,
}

/// An entity of a simulated fight; `available` tells whether it may still act this tick.
#[derive(Clone, Copy, Debug, PartialEq, Eq)]
pub struct SimulatedEntity {
    pub id: i32,
    pub entity_type: EntityType,
    pub position: Vec2i,
    pub player_id: Option<i32>,
    pub health: i32,
    pub active: bool,
    pub available: bool,
}

/// The square an entity of `size` covers from `position`.
pub open spec fn square_rect(position: Vec2i, size: int) -> Rect {
    Rect { min: position, max: Vec2i { x: (position.x + size) as i32, y: (position.y + size) as i32 } }
}

impl SimulatedEntity {
    /// The square the entity covers.
    pub open spec fn spec_bounds(self, entity_properties: Seq<EntityProperties>) -> Rect {
        square_rect(self.position, entity_properties[spec_type_index(self.entity_type)].size as int)
    }

    pub fn bounds(&self, entity_properties: &Vec<EntityProperties>) -> (r: Rect)
        requires
            entity_properties.len() == ENTITY_TYPES_COUNT,
            crate::vec2::in_i32(self.position.x + entity_properties@[spec_type_index(self.entity_type)].size),
            crate::vec2::in_i32(self.position.y + entity_properties@[spec_type_index(self.entity_type)].size),
        ensures
            r == self.spec_bounds(entity_properties@),
    {
        let size = entity_properties[self.entity_type.index()].size;
        Rect::new(self.position, self.position + Vec2i::both(size))
    }
}

/// What an entity is told to do in a simulated tick; `Idle` does nothing.
#[derive(Clone, Copy, Debug, PartialEq, Eq)]
pub enum SimulatedEntityActionType {
    Idle,
    Attack { target: i32 },
    MoveEntity { direction: Vec2i },
    AutoAttack,
}

pub open spec fn spec_priority(t: SimulatedEntityActionType) -> int {
    match t {
        SimulatedEntityActionType::Attack { .. } => 0,
        SimulatedEntityActionType::MoveEntity { .. } => 1,
        _ => 2,
    }
}

impl SimulatedEntityActionType {
    /// Attacks come first, then moves, then everything else.
    pub fn priority(&self) -> (r: usize)
        ensures
            r == spec_priority(*self),
    {
        match self {
            Self::Attack { .. } => 0,
            Self::MoveEntity { .. } => 1,
            _ => 2,
        }
    }
}

/// An action of one entity.
#[derive(Clone, Copy, Debug, PartialEq, Eq)]
pub struct SimulatedEntityAction {
    pub entity_id: i32,
    pub action_type: SimulatedEntityActionType,
}


/// `e` as it enters a simulation: free to act.
pub open spec fn made_available(e: SimulatedEntity) -> SimulatedEntity {
    SimulatedEntity {
        id: e.id,
        entity_type: e.entity_type,
        position: e.position,
        player_id: e.player_id,
        health: e.health,
        active: e.active,
        available: true,
    }
}

/// Cell `i` is the first of `cells` that holds the entity `id`.
pub open spec fn first_cell(cells: Seq<Option<SimulatedEntity>>, id: i32, i: int) -> bool {
    &&& 0 <= i < cells.len()
    &&& cells[i] is Some
    &&& cells[i]->0.id == id
    &&& forall|j: int| 0 <= j < i ==> !(#[trigger] cells[j] is Some && cells[j]->0.id == id)
}

/// `entities` are the entities found on the first `n` of `cells`, one per id, each as the
/// first cell that holds its id gives it, free to act.
pub open spec fn collected(cells: Seq<Option<SimulatedEntity>>, n: int, entities: Seq<SimulatedEntity>) -> bool {
    &&& forall|k: int|
        0 <= k < entities.len() ==> exists|i: int|
            i < n && #[trigger] first_cell(cells, (#[trigger] entities[k]).id, i) && entities[k] == made_available(cells[i]->0)
    &&& forall|i: int|
        0 <= i < n && #[trigger] cell_has_entity(cells, i) ==> exists|k: int|
            0 <= k < entities.len() && entities[k].id == cells[i]->0.id
}

/// Cell `i` holds an entity.
pub open spec fn cell_has_entity(cells: Seq<Option<SimulatedEntity>>, i: int) -> bool {
    cells[i] is Some
}

/// Ids strictly increase along `entities`.
pub open spec fn sorted_by_id(entities: Seq<SimulatedEntity>) -> bool {
    forall|i: int, j: int| 0 <= i < j < entities.len() ==> #[trigger] entities[i].id < #[trigger] entities[j].id
}

/// No two players share an id.
pub open spec fn distinct_players(players: Seq<SimulatedPlayer>) -> bool {
    forall|i: int, j: int| 0 <= i < players.len() && 0 <= j < players.len() && i != j ==> #[trigger] players[i].id != #[trigger] players[j].id
}

/// The tile of a cell: the id of the entity on it.
pub open spec fn tile_of(cell: Option<SimulatedEntity>) -> Option<i32> {
    match cell {
        Some(e) => Some(e.id),
        None => None,
    }
}

/// A player as a simulation starts: its id and score, nothing dealt or taken yet.
pub open spec fn new_player(player: (i32, i32)) -> SimulatedPlayer {
    SimulatedPlayer { id: player.0, score: player.1, damage_done: 0, damage_received: 0 }
}

/// The state of a simulation as plain values.
pub struct SimView {
    pub shift: Vec2i,
    pub map_size: int,
    pub entities: Seq<SimulatedEntity>,
    pub tiles: Seq<Option<i32>>,
    pub actions: Seq<SimulatedEntityAction>,
    pub players: Seq<SimulatedPlayer>,
}

/// A square part of the map, `map_size` cells wide with its corner at `shift`, where entities
/// fight tick by tick.
#[derive(Clone, Debug)]
pub struct EntitySimulator {
    shift: Vec2i,
    map_size: usize,
    entities: Vec<SimulatedEntity>,
    tiles: Vec<Option<i32>>,
    actions: Vec<SimulatedEntityAction>,
    players: Vec<SimulatedPlayer>,
}

impl View for EntitySimulator {
    type V = SimView;

    closed spec fn view(&self) -> SimView {
        SimView {
            shift: self.shift,
            map_size: self.map_size as int,
            entities: self.entities@,
            tiles: self.tiles@,
            actions: self.actions@,
            players: self.players@,
        }
    }
}

/// The square of the map a simulation covers.
pub open spec fn sim_bounds(v: SimView) -> Rect {
    square_rect(v.shift, v.map_size)
}

/// A simulation's state: its tiles cover its square, its entities are sorted by id and its
/// players have distinct ids.
pub open spec fn sim_wf(v: SimView) -> bool {
    &&& 0 < v.map_size
    &&& v.map_size * v.map_size <= usize::MAX
    &&& v.tiles.len() == v.map_size * v.map_size
    &&& sorted_by_id(v.entities)
    &&& distinct_players(v.players)
}

/// A coordinate far enough from the ends of `i32` for a simulation's arithmetic.
pub open spec fn small_coord(v: int) -> bool {
    -0x100_0000 <= v <= 0x100_0000
}

pub open spec fn small_position(p: Vec2i) -> bool {
    small_coord(p.x as int) && small_coord(p.y as int)
}

/// Entity properties whose sizes, ranges, damages and scores are small enough for a
/// simulation's arithmetic.
pub open spec fn properties_fit(props: Seq<EntityProperties>) -> bool {
    &&& props.len() == ENTITY_TYPES_COUNT
    &&& forall|t: int|
        0 <= t < props.len() ==> {
            let p = #[trigger] props[t];
            &&& 0 <= p.size <= 0x400
            &&& 0 <= p.sight_range <= 0x10_0000
            &&& 0 <= p.destroy_score <= 0x10_0000
            &&& (p.attack matches Some(a) ==> 0 <= a.damage <= 0x10_0000 && 0 <= a.attack_range <= 0x10_0000)
        }
}

/// Every tally of every player can grow `k` more times by the most a hit deals or a kill scores.
pub open spec fn tallies_fit(players: Seq<SimulatedPlayer>, k: int) -> bool {
    forall|i: int|
        0 <= i < players.len() ==> {
            let p = #[trigger] players[i];
            &&& p.score + k * 0x10_0000 <= i32::MAX
            &&& p.damage_done + k * 0x10_0000 <= i32::MAX
            &&& p.damage_received + k * 0x10_0000 <= i32::MAX
        }
}

/// The square, the entities and the players of `v` keep every computation of a tick in range:
/// coordinates are small, and every player an entity belongs to takes part.
pub open spec fn sim_fits(v: SimView) -> bool {
    &&& sim_wf(v)
    &&& v.map_size <= 0x400
    &&& -0x80_0000 <= v.shift.x <= 0x80_0000
    &&& -0x80_0000 <= v.shift.y <= 0x80_0000
    &&& forall|k: int| 0 <= k < v.entities.len() ==> small_position(#[trigger] v.entities[k].position)
    &&& forall|k: int|
        0 <= k < v.entities.len() && (#[trigger] v.entities[k]).player_id is Some ==> has_player(
            v.players,
            v.entities[k].player_id->0,
        )
}

/// The properties of the kind of `e`.
pub open spec fn props_of(props: Seq<EntityProperties>, e: SimulatedEntity) -> EntityProperties {
    props[spec_type_index(e.entity_type)]
}

/// `players` after player `id` took `damage`.
pub open spec fn received(players: Seq<SimulatedPlayer>, id: i32, damage: int) -> Seq<SimulatedPlayer> {
    let i = player_index(players, id);
    let p = players[i];
    players.update(i, SimulatedPlayer { damage_received: (p.damage_received + damage) as i32, ..p })
}

/// `players` after player `id` dealt `damage`.
pub open spec fn dealt(players: Seq<SimulatedPlayer>, id: i32, damage: int) -> Seq<SimulatedPlayer> {
    let i = player_index(players, id);
    let p = players[i];
    players.update(i, SimulatedPlayer { damage_done: (p.damage_done + damage) as i32, ..p })
}

/// `players` after player `id` scored `points`.
pub open spec fn scored(players: Seq<SimulatedPlayer>, id: i32, points: int) -> Seq<SimulatedPlayer> {
    let i = player_index(players, id);
    let p = players[i];
    players.update(i, SimulatedPlayer { score: (p.score + points) as i32, ..p })
}

/// The tallies after entity `e` of `v` hit entity `t`, of kind `tp`, for `damage`, leaving it
/// `health`: the target's player took the damage, and unless the attacker has no player, it
/// dealt it and, on a kill, scored the target's destroy score.
pub open spec fn tallied(v: SimView, e: SimulatedEntity, t: SimulatedEntity, tp: EntityProperties, damage: int, health: int) -> Seq<SimulatedPlayer> {
    match t.player_id {
        None => v.players,
        Some(target_player) => {
            let p1 = received(v.players, target_player, damage);
            match e.player_id {
                None => p1,
                Some(player) => {
                    let p2 = dealt(p1, player, damage);
                    if health <= 0 {
                        scored(p2, player, tp.destroy_score as int)
                    } else {
                        p2
                    }
                },
            }
        },
    }
}

/// Entity `ei` of `v` attacks entity `ti`: nothing happens when the target is dead or outside
/// the square, the attacker cannot attack, or the target is out of its attack range; else the
/// target loses the attack's damage, and the players' tallies follow.
pub open spec fn spec_attack(v: SimView, ei: int, ti: int, props: Seq<EntityProperties>) -> SimView {
    let e = v.entities[ei];
    let t = v.entities[ti];
    if t.health <= 0 || !sim_bounds(v).spec_contains(t.position) {
        v
    } else {
        match props_of(props, e).attack {
            None => v,
            Some(a) => if e.spec_bounds(props).spec_distance(t.spec_bounds(props)) > a.attack_range {
                v
            } else {
                let health = t.health - a.damage;
                SimView {
                    entities: v.entities.update(ti, SimulatedEntity { health: health as i32, ..t }),
                    players: tallied(v, e, t, props_of(props, t), a.damage as int, health),
                    ..v
                }
            },
        }
    }
}

/// The cell index, in a simulation's tiles, of the map position `p`.
pub open spec fn tile_index(v: SimView, p: Vec2i) -> int {
    cell_index(v.map_size, Vec2i { x: (p.x - v.shift.x) as i32, y: (p.y - v.shift.y) as i32 })
}

/// Entity `ei` of `v` moves by `direction`: an entity that cannot move stays; a move onto an
/// occupied tile of the square does not happen; else the entity leaves its tile and takes the
/// new one, unless that lies outside the square.
pub open spec fn spec_move(v: SimView, ei: int, direction: Vec2i, props: Seq<EntityProperties>) -> SimView {
    let e = v.entities[ei];
    if !props_of(props, e).can_move {
        v
    } else {
        let target = Vec2i { x: (e.position.x + direction.x) as i32, y: (e.position.y + direction.y) as i32 };
        let inside = sim_bounds(v).spec_contains(target);
        if inside && v.tiles[tile_index(v, target)] is Some {
            v
        } else {
            let taken = if inside {
                v.tiles.update(tile_index(v, target), Some(e.id))
            } else {
                v.tiles
            };
            SimView {
                tiles: taken.update(tile_index(v, e.position), None),
                entities: v.entities.update(ei, SimulatedEntity { position: target, ..e }),
                ..v
            }
        }
    }
}

/// The cells of a simulation's square, counted from its corner at `shift`, whose distance to
/// `bounds` is at most `range`.
pub struct ShiftedRange {
    pub bounds: Rect,
    pub shift: Vec2i,
    pub range: i32,
}

/// The map position of the cell `p` of a square with its corner at `shift`.
pub open spec fn shifted(p: Vec2i, shift: Vec2i) -> Vec2i {
    Vec2i { x: (p.x + shift.x) as i32, y: (p.y + shift.y) as i32 }
}

impl FindPathTarget for ShiftedRange {
    open spec fn target_defined(&self, position: Vec2i) -> bool {
        &&& in_i32(position.x + self.shift.x)
        &&& in_i32(position.y + self.shift.y)
        &&& self.bounds.distance_to_position_fits(shifted(position, self.shift))
    }

    open spec fn target_reached(&self, position: Vec2i) -> bool {
        self.bounds.spec_distance_to_position(shifted(position, self.shift)) <= self.range
    }

    open spec fn target_distance(&self, position: Vec2i) -> int {
        self.bounds.spec_distance_to_position(shifted(position, self.shift))
    }

    fn has_reached(&self, position: Vec2i) -> (r: bool) {
        self.get_distance(position) <= self.range
    }

    fn get_distance(&self, position: Vec2i) -> (r: i32) {
        self.bounds.distance_to_position(position + self.shift)
    }
}

/// What entering a tile costs a unit: one step onto a free tile; an occupied one cannot be
/// entered.
pub open spec fn tile_entry_cost(tile: Option<i32>) -> Option<i32> {
    if tile is Some {
        None
    } else {
        Some(1i32)
    }
}

/// The entry cost of every tile.
pub open spec fn tile_costs(tiles: Seq<Option<i32>>) -> Seq<Option<i32>> {
    tiles.map_values(|t: Option<i32>| tile_entry_cost(t))
}

/// The cell of the square at the map position `p`.
pub open spec fn relative(v: SimView, p: Vec2i) -> Vec2i {
    Vec2i { x: (p.x - v.shift.x) as i32, y: (p.y - v.shift.y) as i32 }
}

/// The step toward `target_bounds` (within `range`) from `src`: the A* search over the
/// simulation's cells (nearest cell when none reaches the target) runs from `src`; with no
/// destination, or the destination `src` itself, there is none; else it is the first cell after
/// `src` on the back path the search recorded from its destination.
pub open spec fn planned_step(v: SimView, src: Vec2i, target_bounds: Rect, range: i32) -> Option<Vec2i> {
    let size = v.map_size;
    let start = relative(v, src);
    let goal = ShiftedRange { bounds: target_bounds, shift: v.shift, range };
    let run = a_star_run(size, start, &goal, true, tile_costs(v.tiles));
    match run.destination {
        None => None,
        Some(d) => if d as int == cell_index(size, start) {
            None
        } else {
            let bp = back_path(run.cells.1, cell_index(size, start), d as int);
            Some(shifted(index_position(size, bp[bp.len() - 1]), v.shift))
        },
    }
}

/// The step that `find_shortest_path_next_position` gives from `src` toward `target_bounds`:
/// exactly `planned_step`, which is as `next_step_found` describes.
pub open spec fn next_step_ok(v: SimView, src: Vec2i, target_bounds: Rect, range: i32, r: Option<Vec2i>) -> bool {
    &&& r == planned_step(v, src, target_bounds, range)
    &&& next_step_found(v, src, target_bounds, range, r)
}

/// What the step that `find_shortest_path_next_position` gives from `src` toward `target`
/// satisfies. A step is a free tile of the square next to `src` from which the destination of
/// a search over free tiles can be reached: a cell within `range` of the target, or, when no
/// cell connected to `src` is, a nearest one, nearer than `src`. There is no step only when
/// `src` is within range, or no cell connected to it is in range or nearer.
pub open spec fn next_step_found(v: SimView, src: Vec2i, target_bounds: Rect, range: i32, r: Option<Vec2i>) -> bool {
    let size = v.map_size;
    let passable = passable_cells(tile_costs(v.tiles));
    let start = relative(v, src);
    let goal = ShiftedRange { bounds: target_bounds, shift: v.shift, range };
    match r {
        Some(p) => {
            let q = relative(v, p);
            &&& p == shifted(q, v.shift)
            &&& manhattan(start, q) == 1
            &&& in_map(size, q)
            &&& v.tiles[cell_index(size, q)] is None
            &&& exists|d: usize|
                #[trigger] search_outcome(size, passable, start, &goal, true, Some(d)) && index_position(size, d as int)
                    != start && connected(size, passable, q, index_position(size, d as int))
        },
        None => search_outcome(size, passable, start, &goal, true, None) || search_outcome(
            size,
            passable,
            start,
            &goal,
            true,
            Some(cell_index(size, start) as usize),
        ),
    }
}

/// `other` is a live entity of another player than `e`'s.
pub open spec fn is_foe(e: SimulatedEntity, other: SimulatedEntity) -> bool {
    &&& other.id != e.id
    &&& other.player_id is Some
    &&& other.player_id != e.player_id
    &&& other.health > 0
}

/// How far entity `k` of `v` stands from entity `ei`, as the target's square measures it.
pub open spec fn sight_distance(v: SimView, ei: int, k: int, props: Seq<EntityProperties>) -> int {
    v.entities[k].spec_bounds(props).spec_distance(v.entities[ei].spec_bounds(props))
}

/// Entity `k` of `v` is a foe of entity `ei` within its sight.
pub open spec fn is_candidate(v: SimView, ei: int, props: Seq<EntityProperties>, k: int) -> bool {
    &&& 0 <= k < v.entities.len()
    &&& is_foe(v.entities[ei], v.entities[k])
    &&& sight_distance(v, ei, k, props) <= props_of(props, v.entities[ei]).sight_range
}

/// Entity `k` of `v` is the foe entity `ei` goes for: the first of the nearest foes in sight.
pub open spec fn is_auto_target(v: SimView, ei: int, props: Seq<EntityProperties>, k: int) -> bool {
    &&& is_candidate(v, ei, props, k)
    &&& forall|j: int| #[trigger] is_candidate(v, ei, props, j) ==> sight_distance(v, ei, j, props) >= sight_distance(v, ei, k, props)
    &&& forall|j: int| 0 <= j < k && #[trigger] is_candidate(v, ei, props, j) ==> sight_distance(v, ei, j, props) > sight_distance(v, ei, k, props)
}

/// What entity `ei` of `v`, going for foe `k` with attack `attack`, does: attack it when in
/// range; else, if it can move, step toward it as `next_step_ok` allows, or stay when there is
/// no step.
pub open spec fn action_for(v: SimView, ei: int, props: Seq<EntityProperties>, attack: AttackProperties, k: int, a: SimulatedEntityActionType) -> bool {
    let e = v.entities[ei];
    let t = v.entities[k];
    if sight_distance(v, ei, k, props) <= attack.attack_range {
        a == SimulatedEntityActionType::Attack { target: t.id }
    } else if !props_of(props, e).can_move {
        a == SimulatedEntityActionType::Idle
    } else {
        match a {
            SimulatedEntityActionType::Idle => next_step_ok(v, e.position, t.spec_bounds(props), attack.attack_range, None),
            SimulatedEntityActionType::MoveEntity { direction } => abs_int(direction.x as int) + abs_int(direction.y as int)
                == 1 && next_step_ok(
                v,
                e.position,
                t.spec_bounds(props),
                attack.attack_range,
                Some(Vec2i { x: (e.position.x + direction.x) as i32, y: (e.position.y + direction.y) as i32 }),
            ),
            _ => false,
        }
    }
}

/// What an automatic attack of entity `ei` of `v` comes to: nothing for an entity that cannot
/// attack or sees no foe; else what `action_for` allows toward the foe it goes for.
pub open spec fn auto_action_ok(v: SimView, ei: int, props: Seq<EntityProperties>, a: SimulatedEntityActionType) -> bool {
    match props_of(props, v.entities[ei]).attack {
        None => a == SimulatedEntityActionType::Idle,
        Some(attack) => if exists|k: int| #[trigger] is_auto_target(v, ei, props, k) {
            exists|k: int| #[trigger] is_auto_target(v, ei, props, k) && action_for(v, ei, props, attack, k, a)
        } else {
            a == SimulatedEntityActionType::Idle
        },
    }
}

/// `e`, free to act again.
pub open spec fn refreshed(e: SimulatedEntity) -> SimulatedEntity {
    SimulatedEntity { available: true, ..e }
}

/// `e`, done acting this tick.
pub open spec fn spent(e: SimulatedEntity) -> SimulatedEntity {
    SimulatedEntity { available: false, ..e }
}

/// `v` with every entity free to act.
pub open spec fn all_available(v: SimView) -> SimView {
    SimView { entities: v.entities.map_values(|e: SimulatedEntity| refreshed(e)), ..v }
}

/// `resolved` is `actions` with every automatic attack replaced by what it comes to in `v`:
/// for an entity free to act and active, what `auto_action_ok` allows; else nothing.
pub open spec fn resolved_ok(v: SimView, props: Seq<EntityProperties>, actions: Seq<SimulatedEntityAction>, resolved: Seq<SimulatedEntityAction>) -> bool {
    &&& resolved.len() == actions.len()
    &&& forall|i: int|
        0 <= i < actions.len() ==> match (#[trigger] actions[i]).action_type {
            SimulatedEntityActionType::AutoAttack => {
                let ei = entity_index(v.entities, actions[i].entity_id);
                &&& resolved[i].entity_id == actions[i].entity_id
                &&& if v.entities[ei].available && v.entities[ei].active {
                    auto_action_ok(v, ei, props, resolved[i].action_type)
                } else {
                    resolved[i].action_type == SimulatedEntityActionType::Idle
                }
            },
            _ => resolved[i] == actions[i],
        }
}

/// One action of the attack phase: an attack by an entity free to act and active, on an entity
/// that exists, happens as `spec_attack` tells, and the attacker is done for the tick.
pub open spec fn attack_step(w: SimView, a: SimulatedEntityAction, props: Seq<EntityProperties>) -> SimView {
    match a.action_type {
        SimulatedEntityActionType::Attack { target } => {
            let ei = entity_index(w.entities, a.entity_id);
            let e = w.entities[ei];
            if !e.available || !e.active || !has_entity(w.entities, target) {
                w
            } else {
                let w1 = spec_attack(w, ei, entity_index(w.entities, target), props);
                SimView { entities: w1.entities.update(ei, spent(w1.entities[ei])), ..w1 }
            }
        },
        _ => w,
    }
}

/// The attack phase: the attacks of `order`, one after another.
pub open spec fn attack_phase(v: SimView, order: Seq<SimulatedEntityAction>, props: Seq<EntityProperties>) -> SimView
    decreases order.len(),
{
    if order.len() == 0 {
        v
    } else {
        attack_step(attack_phase(v, order.drop_last(), props), order.last(), props)
    }
}

/// One action of the move phase: a move of an entity free to act, active and alive happens as
/// `spec_move` tells, and the entity is done for the tick.
pub open spec fn move_step(w: SimView, a: SimulatedEntityAction, props: Seq<EntityProperties>) -> SimView {
    match a.action_type {
        SimulatedEntityActionType::MoveEntity { direction } => {
            let ei = entity_index(w.entities, a.entity_id);
            let e = w.entities[ei];
            if !e.available || !e.active || e.health <= 0 {
                w
            } else {
                let w1 = spec_move(w, ei, direction, props);
                SimView { entities: w1.entities.update(ei, spent(w1.entities[ei])), ..w1 }
            }
        },
        _ => w,
    }
}

/// The move phase: the moves of `order`, one after another.
pub open spec fn move_phase(v: SimView, order: Seq<SimulatedEntityAction>, props: Seq<EntityProperties>) -> SimView
    decreases order.len(),
{
    if order.len() == 0 {
        v
    } else {
        move_step(move_phase(v, order.drop_last(), props), order.last(), props)
    }
}

/// Tile `k` of `v` lies under a dead entity.
pub open spec fn under_dead(v: SimView, props: Seq<EntityProperties>, k: int) -> bool {
    exists|j: int|
        0 <= j < v.entities.len() && (#[trigger] v.entities[j]).health <= 0 && v.entities[j].spec_bounds(
            props,
        ).spec_contains(shifted(index_position(v.map_size, k), v.shift))
}

/// An entity that stays after a tick: alive and still on the square.
pub open spec fn stays(v: SimView, props: Seq<EntityProperties>, e: SimulatedEntity) -> bool {
    e.health > 0 && sim_bounds(v).spec_overlaps(e.spec_bounds(props))
}

/// The end of a tick: no actions are left, the tiles under dead entities are freed, and only
/// the entities alive and still on the square stay.
pub open spec fn finished(v: SimView, props: Seq<EntityProperties>) -> SimView {
    SimView {
        tiles: Seq::new(v.tiles.len(), |k: int| if under_dead(v, props, k) { None } else { v.tiles[k] }),
        entities: v.entities.filter(|e: SimulatedEntity| stays(v, props, e)),
        actions: Seq::empty(),
        ..v
    }
}

/// A tick played with the actions in `order`: attacks, then moves, then the end of the tick.
pub open spec fn played(v: SimView, order: Seq<SimulatedEntityAction>, props: Seq<EntityProperties>) -> SimView {
    finished(move_phase(attack_phase(v, order, props), order, props), props)
}

/// `b` holds the same entities as `a`, in the same order and at the same places; only their
/// health and whether they may act can differ.
pub open spec fn same_places(a: Seq<SimulatedEntity>, b: Seq<SimulatedEntity>) -> bool {
    &&& a.len() == b.len()
    &&& forall|j: int|
        0 <= j < a.len() ==> {
            &&& (#[trigger] b[j]).id == a[j].id
            &&& b[j].entity_type == a[j].entity_type
            &&& b[j].position == a[j].position
            &&& b[j].player_id == a[j].player_id
            &&& b[j].active == a[j].active
        }
}

/// `q` holds the players of `p` in the same order, each tally grown by at most what one hit
/// deals or one kill scores.
pub open spec fn grown_once(p: Seq<SimulatedPlayer>, q: Seq<SimulatedPlayer>) -> bool {
    &&& p.len() == q.len()
    &&& forall|i: int|
        0 <= i < p.len() ==> {
            &&& (#[trigger] q[i]).id == p[i].id
            &&& p[i].score <= q[i].score <= p[i].score + 0x10_0000
            &&& p[i].damage_done <= q[i].damage_done <= p[i].damage_done + 0x10_0000
            &&& p[i].damage_received <= q[i].damage_received <= p[i].damage_received + 0x10_0000
        }
}

/// The same players, with the same ids, in the same order.
pub open spec fn same_ids(p: Seq<SimulatedPlayer>, q: Seq<SimulatedPlayer>) -> bool {
    &&& p.len() == q.len()
    &&& forall|i: int| 0 <= i < p.len() ==> (#[trigger] q[i]).id == p[i].id
}

proof fn lemma_same_ids_keep(p: Seq<SimulatedPlayer>, q: Seq<SimulatedPlayer>)
    requires
        same_ids(p, q),
        distinct_players(p),
    ensures
        distinct_players(q),
        forall|id: i32| has_player(p, id) ==> #[trigger] has_player(q, id),
        forall|id: i32| has_player(p, id) ==> #[trigger] player_index(q, id) == player_index(p, id),
{
    assert forall|id: i32| has_player(p, id) implies #[trigger] has_player(q, id) by {
        let k = choose|k: int| 0 <= k < p.len() && p[k].id == id;
        assert(q[k].id == id);
    }
    assert forall|id: i32| has_player(p, id) implies #[trigger] player_index(q, id) == player_index(p, id) by {
        let k = choose|k: int| 0 <= k < p.len() && p[k].id == id;
        assert(q[k].id == id);
        let a = player_index(q, id);
        let b = player_index(p, id);
        assert(q[a].id == id);
        assert(p[b].id == id);
        if a != b {
            assert(p[a].id == id);
        }
    }
}

/// A hit and its kill grow each tally of each player at most once.
proof fn lemma_tallied_grows(v: SimView, e: SimulatedEntity, t: SimulatedEntity, tp: EntityProperties, damage: int, health: int)
    requires
        distinct_players(v.players),
        0 <= damage <= 0x10_0000,
        0 <= tp.destroy_score <= 0x10_0000,
        t.player_id matches Some(id) ==> has_player(v.players, id),
        e.player_id matches Some(id) ==> has_player(v.players, id),
        tallies_fit(v.players, 1),
    ensures
        grown_once(v.players, tallied(v, e, t, tp, damage, health)),
{
    let p0 = v.players;
    match t.player_id {
        None => {},
        Some(tid) => {
            let p1 = received(p0, tid, damage);
            let i1 = player_index(p0, tid);
            assert(same_ids(p0, p1));
            lemma_same_ids_keep(p0, p1);
            match e.player_id {
                None => {},
                Some(eid) => {
                    let p2 = dealt(p1, eid, damage);
                    let i2 = player_index(p1, eid);
                    assert(same_ids(p1, p2));
                    lemma_same_ids_keep(p1, p2);
                    assert(i2 == player_index(p0, eid));
                    if health <= 0 {
                        let i3 = player_index(p2, eid);
                        assert(i3 == i2);
                    }
                },
            }
        },
    }
}

/// An attack changes only the target's health and, through the tallies, the players.
proof fn lemma_attack_frame(v: SimView, ei: int, ti: int, props: Seq<EntityProperties>)
    requires
        sim_fits(v),
        properties_fit(props),
        0 <= ei < v.entities.len(),
        0 <= ti < v.entities.len(),
        tallies_fit(v.players, 1),
    ensures
        ({
            let w = spec_attack(v, ei, ti, props);
            &&& same_places(v.entities, w.entities)
            &&& w.tiles == v.tiles
            &&& w.shift == v.shift
            &&& w.map_size == v.map_size
            &&& w.actions == v.actions
            &&& grown_once(v.players, w.players)
            &&& forall|j: int| 0 <= j < v.entities.len() && j != ti ==> w.entities[j] == v.entities[j]
            &&& w.entities[ti].available == v.entities[ti].available
        }),
{
    let e = v.entities[ei];
    let t = v.entities[ti];
    let w = spec_attack(v, ei, ti, props);
    assert(props[spec_type_index(e.entity_type)] == props_of(props, e));
    assert(props[spec_type_index(t.entity_type)] == props_of(props, t));
    if !(t.health <= 0 || !sim_bounds(v).spec_contains(t.position)) {
        match props_of(props, e).attack {
            None => {},
            Some(a) => {
                if !(e.spec_bounds(props).spec_distance(t.spec_bounds(props)) > a.attack_range) {
                    lemma_tallied_grows(v, e, t, props_of(props, t), a.damage as int, t.health - a.damage);
                }
            },
        }
    }
}

/// A state with the entities of a fitting state at the same places and the same players fits
/// too.
proof fn lemma_fits_by_shape(v: SimView, w: SimView)
    requires
        sim_fits(v),
        same_places(v.entities, w.entities),
        same_ids(v.players, w.players),
        w.tiles.len() == v.tiles.len(),
        w.shift == v.shift,
        w.map_size == v.map_size,
    ensures
        sim_fits(w),
{
    lemma_same_ids_keep(v.players, w.players);
    assert forall|i: int, j: int| 0 <= i < j < w.entities.len() implies #[trigger] w.entities[i].id < #[trigger] w.entities[j].id by {
        assert(v.entities[i].id < v.entities[j].id);
    }
    assert forall|k: int| 0 <= k < w.entities.len() implies small_position(#[trigger] w.entities[k].position) by {
        assert(small_position(v.entities[k].position));
    }
    assert forall|k: int|
        0 <= k < w.entities.len() && (#[trigger] w.entities[k]).player_id is Some implies has_player(
            w.players,
            w.entities[k].player_id->0,
        ) by {
        assert(v.entities[k].player_id == w.entities[k].player_id);
        assert(has_player(v.players, v.entities[k].player_id->0));
    }
}

proof fn lemma_tallies_shrink(p: Seq<SimulatedPlayer>, q: Seq<SimulatedPlayer>, k: int)
    requires
        tallies_fit(p, k),
        grown_once(p, q),
    ensures
        tallies_fit(q, k - 1),
        same_ids(p, q),
{
    assert forall|i: int| 0 <= i < q.len() implies {
        let x = #[trigger] q[i];
        &&& x.score + (k - 1) * 0x10_0000 <= i32::MAX
        &&& x.damage_done + (k - 1) * 0x10_0000 <= i32::MAX
        &&& x.damage_received + (k - 1) * 0x10_0000 <= i32::MAX
    } by {
        assert(p[i].score + k * 0x10_0000 <= i32::MAX);
    }
}

/// `b` holds the same entities as `a`, in the same order; they may have moved, been hurt, or
/// acted.
pub open spec fn same_kinds(a: Seq<SimulatedEntity>, b: Seq<SimulatedEntity>) -> bool {
    &&& a.len() == b.len()
    &&& forall|j: int|
        0 <= j < a.len() ==> {
            &&& (#[trigger] b[j]).id == a[j].id
            &&& b[j].entity_type == a[j].entity_type
            &&& b[j].player_id == a[j].player_id
            &&& b[j].active == a[j].active
        }
}

/// Every move of `actions` is by at most one cell along one axis.
pub open spec fn moves_fit(actions: Seq<SimulatedEntityAction>) -> bool {
    forall|i: int|
        0 <= i < actions.len() ==> match (#[trigger] actions[i]).action_type {
            SimulatedEntityActionType::MoveEntity { direction } => abs_int(direction.x as int) + abs_int(direction.y as int) <= 1,
            _ => true,
        }
}

/// Every entity free to act that can move stands on the square.
pub open spec fn movers_inside(v: SimView, props: Seq<EntityProperties>) -> bool {
    forall|k: int|
        0 <= k < v.entities.len() && (#[trigger] v.entities[k]).available && props_of(props, v.entities[k]).can_move
            ==> sim_bounds(v).spec_contains(v.entities[k].position)
}

/// A state with the entities of a fitting state, of the same kinds, at small positions, and the
/// same players fits too.
proof fn lemma_fits_by_kinds(v: SimView, w: SimView)
    requires
        sim_fits(v),
        same_kinds(v.entities, w.entities),
        forall|k: int| 0 <= k < w.entities.len() ==> small_position(#[trigger] w.entities[k].position),
        w.players == v.players,
        w.tiles.len() == v.tiles.len(),
        w.shift == v.shift,
        w.map_size == v.map_size,
    ensures
        sim_fits(w),
{
    assert forall|i: int, j: int| 0 <= i < j < w.entities.len() implies #[trigger] w.entities[i].id < #[trigger] w.entities[j].id by {
        assert(v.entities[i].id < v.entities[j].id);
    }
    assert forall|k: int|
        0 <= k < w.entities.len() && (#[trigger] w.entities[k]).player_id is Some implies has_player(
            w.players,
            w.entities[k].player_id->0,
        ) by {
        assert(v.entities[k].player_id == w.entities[k].player_id);
        assert(has_player(v.players, v.entities[k].player_id->0));
    }
}

/// A move changes only the tiles and the mover's position, by at most one cell per axis.
proof fn lemma_move_frame(v: SimView, ei: int, direction: Vec2i, props: Seq<EntityProperties>)
    requires
        sim_fits(v),
        properties_fit(props),
        0 <= ei < v.entities.len(),
        abs_int(direction.x as int) + abs_int(direction.y as int) <= 1,
        props_of(props, v.entities[ei]).can_move ==> sim_bounds(v).spec_contains(v.entities[ei].position),
    ensures
        ({
            let w = spec_move(v, ei, direction, props);
            &&& same_kinds(v.entities, w.entities)
            &&& forall|j: int| 0 <= j < v.entities.len() && j != ei ==> w.entities[j] == v.entities[j]
            &&& w.entities[ei] == v.entities[ei] || (props_of(props, v.entities[ei]).can_move && w.entities[ei] == SimulatedEntity {
                position: Vec2i {
                    x: (v.entities[ei].position.x + direction.x) as i32,
                    y: (v.entities[ei].position.y + direction.y) as i32,
                },
                ..v.entities[ei]
            })
            &&& small_position(w.entities[ei].position)
            &&& w.tiles.len() == v.tiles.len()
            &&& w.players == v.players
            &&& w.shift == v.shift
            &&& w.map_size == v.map_size
            &&& w.actions == v.actions
        }),
{
    let e = v.entities[ei];
    let w = spec_move(v, ei, direction, props);
    assert(small_position(e.position));
    if props_of(props, e).can_move {
        assert(sim_bounds(v).spec_contains(e.position));
        assert(sim_bounds(v).max.x == v.shift.x + v.map_size);
        assert(sim_bounds(v).max.y == v.shift.y + v.map_size);
        assert(-1 <= direction.x <= 1 && -1 <= direction.y <= 1);
        assert(small_position(w.entities[ei].position));
        crate::grid::lemma_cell_index_in_range(v.map_size, relative(v, e.position));
        let target = Vec2i { x: (e.position.x + direction.x) as i32, y: (e.position.y + direction.y) as i32 };
        if sim_bounds(v).spec_contains(target) {
            crate::grid::lemma_cell_index_in_range(v.map_size, relative(v, target));
        }
    }
    assert(same_kinds(v.entities, w.entities));
    assert(forall|j: int| 0 <= j < v.entities.len() && j != ei ==> w.entities[j] == v.entities[j]);
    assert(w.tiles.len() == v.tiles.len());
    assert(w.players == v.players);
    assert(w.entities[ei] == v.entities[ei] || (props_of(props, v.entities[ei]).can_move && w.entities[ei] == SimulatedEntity {
                position: Vec2i {
                    x: (v.entities[ei].position.x + direction.x) as i32,
                    y: (v.entities[ei].position.y + direction.y) as i32,
                },
                ..v.entities[ei]
            }));
}

/// A copy of `items`.
pub(crate) fn copied<T: Copy>(items: &Vec<T>) -> (r: Vec<T>)
    ensures
        r@ == items@,
{
    let mut r: Vec<T> = Vec::new();
    let mut i: usize = 0;
    while i < items.len()
        invariant
            i <= items.len(),
            r@ == items@.take(i as int),
        decreases items.len() - i,
    {
        r.push(items[i]);
        proof {
            assert(items@.take(i + 1) =~= items@.take(i as int).push(items@[i as int]));
        }
        i = i + 1;
    }
    proof {
        assert(items@.take(items.len() as int) =~= items@);
    }
    r
}

/// What a tick needs to be played: the simulation and the properties fit, every tally can take
/// every pending action, every move goes one cell at most, every action's entity is there, and
/// every entity that can move stands on the square.
pub open spec fn simulate_ready(v: SimView, props: Seq<EntityProperties>) -> bool {
    &&& sim_fits(v)
    &&& properties_fit(props)
    &&& tallies_fit(v.players, v.actions.len() as int)
    &&& moves_fit(v.actions)
    &&& forall|i: int| 0 <= i < v.actions.len() ==> has_entity(v.entities, #[trigger] v.actions[i].entity_id)
    &&& forall|k: int|
        0 <= k < v.entities.len() && props_of(props, #[trigger] v.entities[k]).can_move ==> sim_bounds(v).spec_contains(
            v.entities[k].position,
        )
}

/// Whether the properties are small enough for a simulation (`properties_fit`).
pub fn properties_fit_check(props: &Vec<EntityProperties>) -> (r: bool)
    ensures
        r == properties_fit(props@),
{
    if props.len() != ENTITY_TYPES_COUNT {
        return false;
    }
    let mut t: usize = 0;
    while t < props.len()
        invariant
            t <= props.len(),
            props.len() == ENTITY_TYPES_COUNT,
            forall|u: int|
                0 <= u < t ==> {
                    let p = #[trigger] props@[u];
                    &&& 0 <= p.size <= 0x400
                    &&& 0 <= p.sight_range <= 0x10_0000
                    &&& 0 <= p.destroy_score <= 0x10_0000
                    &&& (p.attack matches Some(a) ==> 0 <= a.damage <= 0x10_0000 && 0 <= a.attack_range <= 0x10_0000)
                },
        decreases props.len() - t,
    {
        let p = &props[t];
        if p.size < 0 || p.size > 0x400 || p.sight_range < 0 || p.sight_range > 0x10_0000 || p.destroy_score < 0
            || p.destroy_score > 0x10_0000 {
            return false;
        }
        match &p.attack {
            Some(a) => {
                if a.damage < 0 || a.damage > 0x10_0000 || a.attack_range < 0 || a.attack_range > 0x10_0000 {
                    return false;
                }
            },
            None => {},
        }
        t = t + 1;
    }
    true
}

/// The random number generator of rand that orders the actions of a tick.
#[verifier::external_type_specification]
#[verifier::external_body]
pub struct ExStdRng(StdRng);

/// `SliceRandom::shuffle` of rand: an order of `items` drawn from `rng`. It only swaps items,
/// so the same items come out, each as often as it went in; which order comes out depends on
/// `rng` and is not stated.
#[verifier::external_body]
pub(crate) fn shuffle<T>(items: &mut Vec<T>, rng: &mut StdRng)
    ensures
        final(items)@.to_multiset() == old(items)@.to_multiset(),
{
    items.shuffle(rng);
}

/// What one action resolves to keeps its entity and, when it is a move, is a move of one cell
/// at most.
proof fn lemma_resolved_one(v: SimView, props: Seq<EntityProperties>, a: SimulatedEntityAction, r: SimulatedEntityAction)
    requires
        sim_fits(v),
        has_entity(v.entities, a.entity_id),
        match a.action_type {
            SimulatedEntityActionType::MoveEntity { direction } => abs_int(direction.x as int) + abs_int(direction.y as int) <= 1,
            _ => true,
        },
        match a.action_type {
            SimulatedEntityActionType::AutoAttack => {
                let ei = entity_index(v.entities, a.entity_id);
                &&& r.entity_id == a.entity_id
                &&& if v.entities[ei].available && v.entities[ei].active {
                    auto_action_ok(v, ei, props, r.action_type)
                } else {
                    r.action_type == SimulatedEntityActionType::Idle
                }
            },
            _ => r == a,
        },
    ensures
        r.entity_id == a.entity_id,
        match r.action_type {
            SimulatedEntityActionType::MoveEntity { direction } => abs_int(direction.x as int) + abs_int(direction.y as int) <= 1,
            _ => true,
        },
{
    match a.action_type {
        SimulatedEntityActionType::AutoAttack => {
            let ei = entity_index(v.entities, a.entity_id);
            let e = v.entities[ei];
            assert(0 <= ei < v.entities.len());
            assert(small_position(e.position));
            if e.available && e.active {
                match props_of(props, e).attack {
                    None => {},
                    Some(attack) => {
                        if exists|k: int| #[trigger] is_auto_target(v, ei, props, k) {
                            let k = choose|k: int| #[trigger] is_auto_target(v, ei, props, k) && action_for(v, ei, props, attack, k, r.action_type);
                            match r.action_type {
                                _ => {},
                            }
                        }
                    },
                }
            }
        },
        _ => {},
    }
}

/// Every action stays as it is or, for an automatic attack, comes to a move of one cell at
/// most, so resolving keeps the moves within one cell.
proof fn lemma_resolved_moves_fit(v: SimView, props: Seq<EntityProperties>, actions: Seq<SimulatedEntityAction>, resolved: Seq<SimulatedEntityAction>)
    requires
        sim_fits(v),
        resolved_ok(v, props, actions, resolved),
        moves_fit(actions),
        forall|i: int| 0 <= i < actions.len() ==> has_entity(v.entities, #[trigger] actions[i].entity_id),
    ensures
        moves_fit(resolved),
        forall|i: int| 0 <= i < resolved.len() ==> has_entity(v.entities, #[trigger] resolved[i].entity_id),
{
    assert forall|i: int| 0 <= i < resolved.len() implies match (#[trigger] resolved[i]).action_type {
        SimulatedEntityActionType::MoveEntity { direction } => abs_int(direction.x as int) + abs_int(direction.y as int) <= 1,
        _ => true,
    } && has_entity(v.entities, resolved[i].entity_id) by {
        let a = actions[i];
        assert(has_entity(v.entities, a.entity_id));
        lemma_resolved_one(v, props, a, resolved[i]);
    }
}

/// What an order drawn from `resolved` holds, `resolved` holds.
proof fn lemma_order_from(resolved: Seq<SimulatedEntityAction>, order: Seq<SimulatedEntityAction>, v: SimView)
    requires
        order.to_multiset() == resolved.to_multiset(),
        moves_fit(resolved),
        forall|i: int| 0 <= i < resolved.len() ==> has_entity(v.entities, #[trigger] resolved[i].entity_id),
    ensures
        moves_fit(order),
        forall|i: int| 0 <= i < order.len() ==> has_entity(v.entities, #[trigger] order[i].entity_id),
        order.len() == resolved.len(),
{
    order.to_multiset_ensures();
    resolved.to_multiset_ensures();
    assert forall|i: int| 0 <= i < order.len() implies match (#[trigger] order[i]).action_type {
        SimulatedEntityActionType::MoveEntity { direction } => abs_int(direction.x as int) + abs_int(direction.y as int) <= 1,
        _ => true,
    } && has_entity(v.entities, order[i].entity_id) by {
        let x = order[i];
        assert(order.contains(x));
        assert(order.to_multiset().count(x) > 0);
        assert(resolved.contains(x));
        let j = choose|j: int| 0 <= j < resolved.len() && resolved[j] == x;
        assert(resolved[j] == x);
    }
}

/// Whether some entity of `entities` has id `id`.
pub open spec fn has_entity(entities: Seq<SimulatedEntity>, id: i32) -> bool {
    exists|k: int| 0 <= k < entities.len() && entities[k].id == id
}

/// Where the entity with id `id` stands among `entities`.
pub open spec fn entity_index(entities: Seq<SimulatedEntity>, id: i32) -> int {
    choose|k: int| 0 <= k < entities.len() && entities[k].id == id
}

/// Whether some player of `players` has id `id`.
pub open spec fn has_player(players: Seq<SimulatedPlayer>, id: i32) -> bool {
    exists|k: int| 0 <= k < players.len() && players[k].id == id
}

/// Where the player with id `id` stands among `players`.
pub open spec fn player_index(players: Seq<SimulatedPlayer>, id: i32) -> int {
    choose|k: int| 0 <= k < players.len() && players[k].id == id
}

/// Where the entity with id `id` stands among `entities`, sorted by id.
pub(crate) fn find_entity_index(entities: &Vec<SimulatedEntity>, id: i32) -> (r: Option<usize>)
    requires
        sorted_by_id(entities@),
    ensures
        r matches Some(k) ==> has_entity(entities@, id) && k == entity_index(entities@, id) && k < entities.len(),
        r is None ==> !has_entity(entities@, id),
{
    let mut k: usize = 0;
    while k < entities.len()
        invariant
            k <= entities.len(),
            sorted_by_id(entities@),
            forall|j: int| 0 <= j < k ==> entities@[j].id != id,
        decreases entities.len() - k,
    {
        if entities[k].id == id {
            proof {
                assert(0 <= k < entities@.len() && entities@[k as int].id == id);
                assert(has_entity(entities@, id));
                let c = entity_index(entities@, id);
                assert(0 <= c < entities@.len());
                assert(entities@[c].id == id);
                if c != k {
                    if c < k {
                        assert(entities@[c].id < entities@[k as int].id);
                    } else {
                        assert(entities@[k as int].id < entities@[c].id);
                    }
                }
            }
            return Some(k);
        }
        k = k + 1;
    }
    None
}

/// Where the player with id `id` stands among `players`, whose ids are distinct.
fn find_player_index(players: &Vec<SimulatedPlayer>, id: i32) -> (r: usize)
    requires
        distinct_players(players@),
        has_player(players@, id),
    ensures
        r == player_index(players@, id),
        r < players.len(),
{
    let mut k: usize = 0;
    while k < players.len()
        invariant
            k <= players.len(),
            has_player(players@, id),
            distinct_players(players@),
            forall|j: int| 0 <= j < k ==> players@[j].id != id,
        decreases players.len() - k,
    {
        if players[k].id == id {
            proof {
                assert(0 <= k < players@.len() && players@[k as int].id == id);
                let c = player_index(players@, id);
                if c != k {
                    assert(players@[c].id != players@[k as int].id);
                }
            }
            return k;
        }
        k = k + 1;
    }
    proof {
        let c = choose|c: int| 0 <= c < players@.len() && players@[c].id == id;
    }
    0
}

/// Whether some entity of `entities` has id `id`.
fn contains_id(entities: &Vec<SimulatedEntity>, id: i32) -> (r: bool)
    ensures
        r == exists|k: int| 0 <= k < entities.len() && entities@[k].id == id,
{
    let mut k: usize = 0;
    while k < entities.len()
        invariant
            k <= entities.len(),
            forall|j: int| 0 <= j < k ==> entities@[j].id != id,
        decreases entities.len() - k,
    {
        if entities[k].id == id {
            return true;
        }
        k = k + 1;
    }
    false
}

/// Puts `e` among `entities`, sorted by id, where its id belongs.
fn insert_by_id(entities: &mut Vec<SimulatedEntity>, e: SimulatedEntity) -> (k: usize)
    requires
        sorted_by_id(old(entities)@),
        forall|j: int| 0 <= j < old(entities).len() ==> old(entities)@[j].id != e.id,
    ensures
        k <= old(entities).len(),
        final(entities)@ == old(entities)@.insert(k as int, e),
        sorted_by_id(final(entities)@),
{
    let mut k: usize = 0;
    while k < entities.len() && entities[k].id < e.id
        invariant
            k <= entities.len(),
            forall|j: int| 0 <= j < k ==> entities@[j].id < e.id,
        decreases entities.len() - k,
    {
        k = k + 1;
    }
    let ghost before = entities@;
    entities.insert(k, e);
    proof {
        let after = entities@;
        assert forall|i: int, j: int| 0 <= i < j < after.len() implies #[trigger] after[i].id < #[trigger] after[j].id by {
            if j < k {
            } else if j == k {
                assert(before[i].id < e.id);
            } else if i < k {
                assert(after[j] == before[j - 1]);
            } else if i == k {
                assert(after[j] == before[j - 1]);
                assert(before[k as int].id >= e.id);
                if j - 1 > k {
                    assert(before[k as int].id < before[j - 1].id);
                }
            } else {
                assert(after[i] == before[i - 1]);
                assert(after[j] == before[j - 1]);
            }
        }
    }
    k
}


/// Adds the entity of cell `i` to `entities` unless one with its id is there already.
fn collect_cell(entities: &mut Vec<SimulatedEntity>, Ghost(cells): Ghost<Seq<Option<SimulatedEntity>>>, i: usize, e: SimulatedEntity)
    requires
        sorted_by_id(old(entities)@),
        collected(cells, i as int, old(entities)@),
        i < cells.len(),
        cells[i as int] == Some(e),
    ensures
        sorted_by_id(final(entities)@),
        collected(cells, i + 1, final(entities)@),
{
    let ghost before = entities@;
    if contains_id(entities, e.id) {
        proof {
            assert forall|kk: int| 0 <= kk < before.len() implies exists|ii: int|
                ii < i + 1 && #[trigger] first_cell(cells, (#[trigger] before[kk]).id, ii) && before[kk]
                    == made_available(cells[ii]->0) by {
                let ii = choose|ii: int| ii < i && #[trigger] first_cell(cells, before[kk].id, ii) && before[kk] == made_available(cells[ii]->0);
            }
        }
        return;
    }
    let entity = SimulatedEntity {
        id: e.id,
        entity_type: e.entity_type,
        position: e.position,
        player_id: e.player_id,
        health: e.health,
        active: e.active,
        available: true,
    };
    let k = insert_by_id(entities, entity);
    proof {
        let after = entities@;
        assert(first_cell(cells, e.id, i as int)) by {
            assert forall|j: int| 0 <= j < i implies !(#[trigger] cells[j] is Some && cells[j]->0.id == e.id) by {
                if cells[j] is Some && cells[j]->0.id == e.id {
                    assert(cell_has_entity(cells, j));
                    let kk = choose|kk: int| 0 <= kk < before.len() && before[kk].id == cells[j]->0.id;
                }
            }
        }
        assert forall|kk: int| 0 <= kk < after.len() implies exists|ii: int|
            ii < i + 1 && #[trigger] first_cell(cells, (#[trigger] after[kk]).id, ii) && after[kk]
                == made_available(cells[ii]->0) by {
            if kk < k {
                assert(after[kk] == before[kk]);
            } else if kk > k {
                assert(after[kk] == before[kk - 1]);
            } else {
                assert(after[kk] == entity);
                assert(first_cell(cells, after[kk].id, i as int));
            }
        }
        assert forall|ii: int| 0 <= ii < i + 1 && #[trigger] cell_has_entity(cells, ii) implies exists|kk: int|
            0 <= kk < after.len() && after[kk].id == cells[ii]->0.id by {
            if ii < i {
                let kk = choose|kk: int| 0 <= kk < before.len() && before[kk].id == cells[ii]->0.id;
                if kk < k {
                    assert(after[kk] == before[kk]);
                } else {
                    assert(after[kk + 1] == before[kk]);
                }
            } else {
                assert(after[k as int].id == cells[ii]->0.id);
            }
        }
    }
}

/// The entities found on `cells`, one per id, free to act, sorted by id.
fn collect_entities(cells: &Vec<Option<SimulatedEntity>>) -> (r: Vec<SimulatedEntity>)
    ensures
        sorted_by_id(r@),
        collected(cells@, cells.len() as int, r@),
{
    let mut entities: Vec<SimulatedEntity> = Vec::new();
    let mut i: usize = 0;
    while i < cells.len()
        invariant
            i <= cells.len(),
            sorted_by_id(entities@),
            collected(cells@, i as int, entities@),
        decreases cells.len() - i,
    {
        let cell = cells[i];
        match cell {
            None => {
                proof {
                    assert forall|kk: int| 0 <= kk < entities@.len() implies exists|ii: int|
                        ii < i + 1 && #[trigger] first_cell(cells@, (#[trigger] entities@[kk]).id, ii) && entities@[kk]
                            == made_available(cells@[ii]->0) by {
                        let ii = choose|ii: int| ii < i && #[trigger] first_cell(cells@, entities@[kk].id, ii) && entities@[kk] == made_available(cells@[ii]->0);
                    }
                }
            },
            Some(e) => {
                collect_cell(&mut entities, Ghost(cells@), i, e);
            },
        }
        i = i + 1;
    }
    entities
}

/// The tile of each of `cells`.
fn cell_tiles(cells: &Vec<Option<SimulatedEntity>>) -> (r: Vec<Option<i32>>)
    ensures
        r@ == cells@.map_values(|c: Option<SimulatedEntity>| tile_of(c)),
{
    let mut tiles: Vec<Option<i32>> = Vec::new();
    let mut i: usize = 0;
    while i < cells.len()
        invariant
            i <= cells.len(),
            tiles@ == cells@.take(i as int).map_values(|c: Option<SimulatedEntity>| tile_of(c)),
        decreases cells.len() - i,
    {
        let tile = match cells[i] {
            Some(e) => Some(e.id),
            None => None,
        };
        tiles.push(tile);
        proof {
            assert(cells@.take(i + 1).map_values(|c: Option<SimulatedEntity>| tile_of(c)) =~= cells@.take(i as int).map_values(
                |c: Option<SimulatedEntity>| tile_of(c),
            ).push(tile_of(cells@[i as int])));
        }
        i = i + 1;
    }
    proof {
        assert(cells@.take(cells.len() as int) =~= cells@);
    }
    tiles
}

/// The entry cost of every tile: one for a free tile, none for an occupied one.
fn entry_costs_of(tiles: &Vec<Option<i32>>) -> (r: Vec<Option<i32>>)
    ensures
        r@ == tile_costs(tiles@),
{
    let mut r: Vec<Option<i32>> = Vec::new();
    let mut i: usize = 0;
    while i < tiles.len()
        invariant
            i <= tiles.len(),
            r@ == tiles@.take(i as int).map_values(|t: Option<i32>| tile_entry_cost(t)),
        decreases tiles.len() - i,
    {
        let cost = if tiles[i].is_some() {
            None
        } else {
            Some(1i32)
        };
        r.push(cost);
        proof {
            assert(tiles@.take(i + 1).map_values(|t: Option<i32>| tile_entry_cost(t)) =~= tiles@.take(i as int).map_values(
                |t: Option<i32>| tile_entry_cost(t),
            ).push(tile_entry_cost(tiles@[i as int])));
        }
        i = i + 1;
    }
    proof {
        assert(tiles@.take(tiles.len() as int) =~= tiles@);
    }
    r
}

/// `n` unknown costs and `n` cells each its own back step: a search not begun.
fn fresh_search(n: usize) -> (r: (Vec<i32>, Vec<usize>))
    ensures
        r.0.len() == n,
        r.1.len() == n,
        forall|v: int| 0 <= v < n ==> r.0@[v] == i32::MAX,
        forall|v: int| 0 <= v < n ==> r.1@[v] == v,
{
    let mut costs: Vec<i32> = Vec::new();
    let mut backtrack: Vec<usize> = Vec::new();
    let mut i: usize = 0;
    while i < n
        invariant
            i <= n,
            costs.len() == i,
            backtrack.len() == i,
            forall|v: int| 0 <= v < i ==> #[trigger] costs@[v] == i32::MAX,
            forall|v: int| 0 <= v < i ==> #[trigger] backtrack@[v] == v,
        decreases n - i,
    {
        costs.push(i32::MAX);
        backtrack.push(i);
        i = i + 1;
    }
    (costs, backtrack)
}

impl EntitySimulator {
    /// A simulation of the square `map_size` cells wide with its corner at `shift`, where
    /// `cells` tells, row by row, which entity covers each cell of the square, and `players`
    /// gives each player's id and score. Each entity found enters once, free to act, and the
    /// entities are sorted by id.
    pub fn new(shift: Vec2i, map_size: usize, cells: &Vec<Option<SimulatedEntity>>, players: &Vec<(i32, i32)>) -> (r: Self)
        requires
            0 < map_size,
            map_size * map_size <= usize::MAX,
            cells.len() == map_size * map_size,
            forall|i: int, j: int|
                0 <= i < players.len() && 0 <= j < players.len() && i != j ==> (#[trigger] players@[i]).0 != (
                #[trigger] players@[j]).0,
        ensures
            sim_wf(r@),
            r@.shift == shift,
            r@.map_size == map_size,
            r@.tiles == cells@.map_values(|c: Option<SimulatedEntity>| tile_of(c)),
            collected(cells@, cells.len() as int, r@.entities),
            r@.actions == Seq::<SimulatedEntityAction>::empty(),
            r@.players == players@.map_values(|p: (i32, i32)| new_player(p)),
    {
        let tiles = cell_tiles(cells);
        let entities = collect_entities(cells);
        let mut simulated_players: Vec<SimulatedPlayer> = Vec::new();
        let mut j: usize = 0;
        while j < players.len()
            invariant
                j <= players.len(),
                simulated_players@ == players@.take(j as int).map_values(|p: (i32, i32)| new_player(p)),
            decreases players.len() - j,
        {
            let (id, score) = players[j];
            simulated_players.push(SimulatedPlayer { id, score, damage_done: 0, damage_received: 0 });
            proof {
                assert(players@.take(j + 1).map_values(|p: (i32, i32)| new_player(p)) =~= players@.take(j as int).map_values(
                    |p: (i32, i32)| new_player(p),
                ).push(new_player(players@[j as int])));
            }
            j = j + 1;
        }
        proof {
            assert(players@.take(players.len() as int) =~= players@);
        }
        Self { shift, map_size, entities, tiles, actions: Vec::new(), players: simulated_players }
    }
}


/// A rectangle whose corners lie within `2^25` of the origin.
pub open spec fn small_rect(r: Rect) -> bool {
    &&& -0x200_0000 <= r.min.x <= 0x200_0000
    &&& -0x200_0000 <= r.min.y <= 0x200_0000
    &&& -0x200_0000 <= r.max.x <= 0x200_0000
    &&& -0x200_0000 <= r.max.y <= 0x200_0000
}

/// Distances between small rectangles, and from them to small positions, fit an `i32` and
/// stay below `2^28`.
proof fn lemma_small_distances(a: Rect, b: Rect, p: Vec2i)
    requires
        small_rect(a),
        small_rect(b),
        -0x200_0000 <= p.x <= 0x200_0000,
        -0x200_0000 <= p.y <= 0x200_0000,
    ensures
        a.distance_fits(b),
        a.distance_to_position_fits(p),
        a.spec_distance(b) <= 0x1000_0000,
        a.spec_distance_to_position(p) <= 0x1000_0000,
{
}

/// The square of an entity at a small position, of a size a fitting property allows, is small.
proof fn lemma_entity_rect_small(position: Vec2i, size: int)
    requires
        small_position(position),
        0 <= size <= 0x400,
    ensures
        small_rect(square_rect(position, size)),
{
}

impl EntitySimulator {
    /// The square of the map the simulation covers.
    pub fn bounds(&self) -> (r: Rect)
        requires
            sim_fits(self@),
        ensures
            r == sim_bounds(self@),
    {
        Rect::new(self.shift, self.shift + Vec2i::both(self.map_size as i32))
    }

    /// The tile index of a position inside the square.
    pub(crate) fn tile_index_of(&self, position: Vec2i) -> (r: usize)
        requires
            sim_fits(self@),
            sim_bounds(self@).spec_contains(position),
        ensures
            r == tile_index(self@, position),
            r < self@.tiles.len(),
    {
        let relative = position - self.shift;
        proof {
            crate::grid::lemma_cell_index_in_range(self.map_size as int, relative);
        }
        position_to_index(relative, self.map_size)
    }

    /// Entity `entity_index` moves by `direction`, as `spec_move` tells.
    fn move_entity(&mut self, entity_index: usize, direction: Vec2i, entity_properties: &Vec<EntityProperties>)
        requires
            sim_fits(old(self)@),
            properties_fit(entity_properties@),
            entity_index < old(self)@.entities.len(),
            abs_int(direction.x as int) + abs_int(direction.y as int) <= 1,
            props_of(entity_properties@, old(self)@.entities[entity_index as int]).can_move ==> sim_bounds(old(self)@).spec_contains(
                old(self)@.entities[entity_index as int].position,
            ),
        ensures
            final(self)@ == spec_move(old(self)@, entity_index as int, direction, entity_properties@),
    {
        let entity = self.entities[entity_index];
        let properties = &entity_properties[entity.entity_type.index()];
        if !properties.can_move {
            return;
        }
        let position = entity.position;
        proof {
            assert(small_position(position));
        }
        let target_position = position + direction;
        if self.bounds().contains(target_position) {
            let target_index = self.tile_index_of(target_position);
            if self.tiles[target_index].is_some() {
                return;
            }
            self.tiles.set(target_index, Some(entity.id));
        }
        let position_index = self.tile_index_of(position);
        self.tiles.set(position_index, None);
        self.entities.set(entity_index, SimulatedEntity { position: target_position, ..entity });
    }

    /// The foe entity `entity_index` goes for, if it sees any: the first of the nearest.
    fn find_auto_target(&self, entity_index: usize, entity_properties: &Vec<EntityProperties>) -> (r: Option<(usize, i32)>)
        requires
            sim_fits(self@),
            properties_fit(entity_properties@),
            entity_index < self@.entities.len(),
        ensures
            r matches Some((k, d)) ==> is_auto_target(self@, entity_index as int, entity_properties@, k as int) && d
                == sight_distance(self@, entity_index as int, k as int, entity_properties@),
            r is None ==> forall|k: int| !is_candidate(self@, entity_index as int, entity_properties@, k),
    {
        let ghost v = self@;
        let ghost ei = entity_index as int;
        let ghost props = entity_properties@;
        let entity = self.entities[entity_index];
        let properties = &entity_properties[entity.entity_type.index()];
        proof {
            lemma_entity_rect_small(entity.position, props[spec_type_index(entity.entity_type)].size as int);
        }
        let entity_bounds = entity.bounds(entity_properties);
        let mut best: Option<(usize, i32)> = None;
        let mut k: usize = 0;
        while k < self.entities.len()
            invariant
                v == self@,
                ei == entity_index,
                props == entity_properties@,
                sim_fits(v),
                properties_fit(props),
                entity_index < v.entities.len(),
                entity == v.entities[ei],
                properties == props_of(props, entity),
                entity_bounds == entity.spec_bounds(props),
                k <= v.entities.len(),
                best matches Some((b, d)) ==> b < k && is_candidate(v, ei, props, b as int) && d == sight_distance(v, ei, b as int, props)
                    && (forall|j: int| 0 <= j < k && #[trigger] is_candidate(v, ei, props, j) ==> sight_distance(v, ei, j, props) >= d)
                    && (forall|j: int| 0 <= j < b && #[trigger] is_candidate(v, ei, props, j) ==> sight_distance(v, ei, j, props) > d),
                best is None ==> forall|j: int| 0 <= j < k ==> !#[trigger] is_candidate(v, ei, props, j),
            decreases v.entities.len() - k,
        {
            let other = self.entities[k];
            let foe = other.id != entity.id && other.player_id.is_some() && other.player_id != entity.player_id && other.health > 0;
            if foe {
                proof {
                    lemma_entity_rect_small(other.position, props[spec_type_index(other.entity_type)].size as int);
                    lemma_small_distances(other.spec_bounds(props), entity_bounds, other.position);
                }
                let distance = other.bounds(entity_properties).distance(&entity_bounds);
                if distance <= properties.sight_range {
                    let better = match best {
                        None => true,
                        Some((_, d)) => distance < d,
                    };
                    if better {
                        best = Some((k, distance));
                    }
                }
            }
            proof {
                assert(is_candidate(v, ei, props, k as int) == (foe && sight_distance(v, ei, k as int, props) <= props_of(props, entity).sight_range));
            }
            k = k + 1;
        }
        proof {
            if best is None {
                assert forall|j: int| !is_candidate(v, ei, props, j) by {
                    if 0 <= j < v.entities.len() {
                        assert(!is_candidate(v, ei, props, j));
                    }
                }
            }
        }
        best
    }

    /// What an automatic attack of entity `entity_index` comes to now, as `auto_action_ok` tells.
    fn get_auto_attack_action(&self, entity_index: usize, entity_properties: &Vec<EntityProperties>) -> (r: SimulatedEntityActionType)
        requires
            sim_fits(self@),
            properties_fit(entity_properties@),
            entity_index < self@.entities.len(),
            props_of(entity_properties@, self@.entities[entity_index as int]).can_move ==> sim_bounds(self@).spec_contains(
                self@.entities[entity_index as int].position,
            ),
        ensures
            auto_action_ok(self@, entity_index as int, entity_properties@, r),
    {
        let ghost v = self@;
        let ghost ei = entity_index as int;
        let ghost props = entity_properties@;
        let entity = self.entities[entity_index];
        let properties = &entity_properties[entity.entity_type.index()];
        match &properties.attack {
            None => SimulatedEntityActionType::Idle,
            Some(attack) => {
                match self.find_auto_target(entity_index, entity_properties) {
                    None => {
                        proof {
                            assert forall|k: int| !is_auto_target(v, ei, props, k) by {
                                assert(!is_candidate(v, ei, props, k));
                            }
                        }
                        SimulatedEntityActionType::Idle
                    },
                    Some((k, distance)) => {
                        proof {
                            assert(is_auto_target(v, ei, props, k as int));
                        }
                        if distance <= attack.attack_range {
                            let r = SimulatedEntityActionType::Attack { target: self.entities[k].id };
                            assert(action_for(v, ei, props, *attack, k as int, r));
                            r
                        } else if properties.can_move {
                            let target = self.entities[k];
                            let next = self.find_shortest_path_next_position(entity.position, &target, attack.attack_range, entity_properties);
                            match next {
                                Some(next_position) => {
                                    proof {
                                        assert(small_position(entity.position));
                                        assert(small_position(v.shift));
                                    }
                                    let r = SimulatedEntityActionType::MoveEntity { direction: next_position - entity.position };
                                    assert(action_for(v, ei, props, *attack, k as int, r));
                                    r
                                },
                                None => {
                                    assert(action_for(v, ei, props, *attack, k as int, SimulatedEntityActionType::Idle));
                                    SimulatedEntityActionType::Idle
                                },
                            }
                        } else {
                            assert(action_for(v, ei, props, *attack, k as int, SimulatedEntityActionType::Idle));
                            SimulatedEntityActionType::Idle
                        }
                    },
                }
            },
        }
    }

    /// Every automatic attack replaced by what it comes to now, as `resolved_ok` tells.
    fn resolve_auto_attacks(&mut self, entity_properties: &Vec<EntityProperties>)
        requires
            sim_fits(old(self)@),
            properties_fit(entity_properties@),
            forall|i: int| 0 <= i < old(self)@.actions.len() ==> has_entity(old(self)@.entities, #[trigger] old(self)@.actions[i].entity_id),
            forall|k: int|
                0 <= k < old(self)@.entities.len() && props_of(entity_properties@, #[trigger] old(self)@.entities[k]).can_move
                    ==> sim_bounds(old(self)@).spec_contains(old(self)@.entities[k].position),
        ensures
            final(self)@ == (SimView { actions: final(self)@.actions, ..old(self)@ }),
            resolved_ok(old(self)@, entity_properties@, old(self)@.actions, final(self)@.actions),
    {
        let ghost v = self@;
        let ghost props = entity_properties@;
        let mut resolved: Vec<SimulatedEntityAction> = Vec::new();
        let mut i: usize = 0;
        while i < self.actions.len()
            invariant
                v == self@,
                props == entity_properties@,
                sim_fits(v),
                properties_fit(props),
                forall|i: int| 0 <= i < v.actions.len() ==> has_entity(v.entities, #[trigger] v.actions[i].entity_id),
                forall|k: int|
                    0 <= k < v.entities.len() && props_of(props, #[trigger] v.entities[k]).can_move ==> sim_bounds(v).spec_contains(
                        v.entities[k].position,
                    ),
                i <= v.actions.len(),
                resolved_ok(v, props, v.actions.take(i as int), resolved@),
            decreases v.actions.len() - i,
        {
            let action = self.actions[i];
            let resolved_action = match action.action_type {
                SimulatedEntityActionType::AutoAttack => {
                    assert(has_entity(v.entities, v.actions[i as int].entity_id));
                    let found = find_entity_index(&self.entities, action.entity_id);
                    let entity_index = match found {
                        Some(k) => k,
                        None => {
                            assert(false);
                            0
                        },
                    };
                    let entity = self.entities[entity_index];
                    let action_type = if entity.available && entity.active {
                        self.get_auto_attack_action(entity_index, entity_properties)
                    } else {
                        SimulatedEntityActionType::Idle
                    };
                    SimulatedEntityAction { entity_id: action.entity_id, action_type }
                },
                _ => action,
            };
            resolved.push(resolved_action);
            proof {
                let taken = v.actions.take(i + 1);
                assert(taken =~= v.actions.take(i as int).push(action));
                assert forall|j: int| 0 <= j < taken.len() implies match (#[trigger] taken[j]).action_type {
                    SimulatedEntityActionType::AutoAttack => {
                        let ei = entity_index(v.entities, taken[j].entity_id);
                        &&& resolved@[j].entity_id == taken[j].entity_id
                        &&& if v.entities[ei].available && v.entities[ei].active {
                            auto_action_ok(v, ei, props, resolved@[j].action_type)
                        } else {
                            resolved@[j].action_type == SimulatedEntityActionType::Idle
                        }
                    },
                    _ => resolved@[j] == taken[j],
                } by {
                    if j < i {
                        assert(taken[j] == v.actions.take(i as int)[j]);
                    }
                }
            }
            i = i + 1;
        }
        proof {
            assert(v.actions.take(v.actions.len() as int) =~= v.actions);
        }
        self.actions = resolved;
    }

    /// The attack phase of a tick, with the actions in the order they stand, as `attack_phase`
    /// tells.
    fn apply_attacks(&mut self, entity_properties: &Vec<EntityProperties>)
        requires
            sim_fits(old(self)@),
            properties_fit(entity_properties@),
            tallies_fit(old(self)@.players, old(self)@.actions.len() as int),
            forall|i: int| 0 <= i < old(self)@.actions.len() ==> has_entity(old(self)@.entities, #[trigger] old(self)@.actions[i].entity_id),
        ensures
            final(self)@ == attack_phase(old(self)@, old(self)@.actions, entity_properties@),
            sim_fits(final(self)@),
            same_places(old(self)@.entities, final(self)@.entities),
            same_ids(old(self)@.players, final(self)@.players),
            final(self)@.actions == old(self)@.actions,
            final(self)@.shift == old(self)@.shift,
            final(self)@.map_size == old(self)@.map_size,
    {
        let ghost v0 = self@;
        let ghost props = entity_properties@;
        let ghost n = v0.actions.len() as int;
        let mut i: usize = 0;
        proof {
            assert(v0.actions.take(0) =~= Seq::<SimulatedEntityAction>::empty());
            assert(same_places(v0.entities, v0.entities));
            assert(same_ids(v0.players, v0.players));
        }
        while i < self.actions.len()
            invariant
                props == entity_properties@,
                properties_fit(props),
                sim_fits(v0),
                n == v0.actions.len(),
                forall|i: int| 0 <= i < v0.actions.len() ==> has_entity(v0.entities, #[trigger] v0.actions[i].entity_id),
                i <= n,
                self@ == attack_phase(v0, v0.actions.take(i as int), props),
                self@.actions == v0.actions,
                self@.tiles == v0.tiles,
                self@.shift == v0.shift,
                self@.map_size == v0.map_size,
                same_places(v0.entities, self@.entities),
                same_ids(v0.players, self@.players),
                tallies_fit(self@.players, n - i),
                sim_fits(self@),
            decreases n - i,
        {
            let ghost w = self@;
            let action = self.actions[i];
            proof {
                assert(v0.actions.take(i + 1).drop_last() =~= v0.actions.take(i as int));
                assert(v0.actions.take(i + 1).last() == action);
                assert(has_entity(v0.entities, action.entity_id));
                let k = choose|k: int| 0 <= k < v0.entities.len() && v0.entities[k].id == action.entity_id;
                assert(w.entities[k].id == action.entity_id);
                assert(has_entity(w.entities, action.entity_id));
            }
            match action.action_type {
                SimulatedEntityActionType::Attack { target } => {
                    let found = find_entity_index(&self.entities, action.entity_id);
                    let entity_index = match found {
                        Some(k) => k,
                        None => {
                            assert(false);
                            0
                        },
                    };
                    let entity = self.entities[entity_index];
                    if entity.available && entity.active {
                        let target_found = find_entity_index(&self.entities, target);
                        match target_found {
                            Some(target_index) => {
                                self.attack(entity_index, target_index, entity_properties);
                                let ghost w1 = self@;
                                proof {
                                    lemma_attack_frame(w, entity_index as int, target_index as int, props);
                                }
                                let attacker = self.entities[entity_index];
                                self.entities.set(entity_index, SimulatedEntity { available: false, ..attacker });
                                proof {
                                    assert(self@ == attack_step(w, action, props));
                                    lemma_tallies_shrink(w.players, self@.players, n - i);
                                    assert(same_places(v0.entities, self@.entities));
                                    assert(same_ids(v0.players, self@.players));
                                    lemma_fits_by_shape(v0, self@);
                                    assert(tallies_fit(self@.players, n - (i + 1))) by {
                                        assert(n - i - 1 == n - (i + 1));
                                    }
                                }
                            },
                            None => {
                                assert(self@ == attack_step(w, action, props));
                                proof {
                                    assert(tallies_fit(self@.players, n - (i + 1)));
                                }
                            },
                        }
                    } else {
                        assert(self@ == attack_step(w, action, props));
                    }
                },
                _ => {
                    assert(self@ == attack_step(w, action, props));
                },
            }
            i = i + 1;
        }
        proof {
            assert(v0.actions.take(n) =~= v0.actions);
        }
    }

    /// The move phase of a tick, with the actions in the order they stand, as `move_phase`
    /// tells.
    fn apply_moves(&mut self, entity_properties: &Vec<EntityProperties>)
        requires
            sim_fits(old(self)@),
            properties_fit(entity_properties@),
            moves_fit(old(self)@.actions),
            movers_inside(old(self)@, entity_properties@),
            forall|i: int| 0 <= i < old(self)@.actions.len() ==> has_entity(old(self)@.entities, #[trigger] old(self)@.actions[i].entity_id),
        ensures
            final(self)@ == move_phase(old(self)@, old(self)@.actions, entity_properties@),
            sim_fits(final(self)@),
            same_kinds(old(self)@.entities, final(self)@.entities),
    {
        let ghost v0 = self@;
        let ghost props = entity_properties@;
        let ghost n = v0.actions.len() as int;
        let mut i: usize = 0;
        proof {
            assert(v0.actions.take(0) =~= Seq::<SimulatedEntityAction>::empty());
            assert(same_kinds(v0.entities, v0.entities));
        }
        while i < self.actions.len()
            invariant
                props == entity_properties@,
                properties_fit(props),
                sim_fits(v0),
                n == v0.actions.len(),
                moves_fit(v0.actions),
                forall|i: int| 0 <= i < v0.actions.len() ==> has_entity(v0.entities, #[trigger] v0.actions[i].entity_id),
                i <= n,
                self@ == move_phase(v0, v0.actions.take(i as int), props),
                self@.actions == v0.actions,
                self@.players == v0.players,
                self@.tiles.len() == v0.tiles.len(),
                self@.shift == v0.shift,
                self@.map_size == v0.map_size,
                same_kinds(v0.entities, self@.entities),
                movers_inside(self@, props),
                sim_fits(self@),
            decreases n - i,
        {
            let ghost w = self@;
            let action = self.actions[i];
            proof {
                assert(v0.actions.take(i + 1).drop_last() =~= v0.actions.take(i as int));
                assert(v0.actions.take(i + 1).last() == action);
                assert(has_entity(v0.entities, action.entity_id));
                let k = choose|k: int| 0 <= k < v0.entities.len() && v0.entities[k].id == action.entity_id;
                assert(w.entities[k].id == action.entity_id);
                assert(has_entity(w.entities, action.entity_id));
            }
            match action.action_type {
                SimulatedEntityActionType::MoveEntity { direction } => {
                    let found = find_entity_index(&self.entities, action.entity_id);
                    let entity_index = match found {
                        Some(k) => k,
                        None => {
                            assert(false);
                            0
                        },
                    };
                    let entity = self.entities[entity_index];
                    if entity.available && entity.active && entity.health > 0 {
                        proof {
                            assert(moves_fit(v0.actions));
                            assert(v0.actions[i as int] == action);
                            lemma_move_frame(w, entity_index as int, direction, props);
                        }
                        self.move_entity(entity_index, direction, entity_properties);
                        let mover = self.entities[entity_index];
                        self.entities.set(entity_index, SimulatedEntity { available: false, ..mover });
                        proof {
                            assert(self@ == move_step(w, action, props));
                            assert(same_kinds(v0.entities, self@.entities));
                            assert forall|k: int| 0 <= k < self@.entities.len() implies small_position(#[trigger] self@.entities[k].position) by {
                                if k != entity_index {
                                    assert(self@.entities[k] == w.entities[k]);
                                }
                            }
                            lemma_fits_by_kinds(v0, self@);
                            assert forall|k: int|
                                0 <= k < self@.entities.len() && (#[trigger] self@.entities[k]).available && props_of(props, self@.entities[k]).can_move
                                    implies sim_bounds(self@).spec_contains(self@.entities[k].position) by {
                                if k != entity_index {
                                    assert(self@.entities[k] == w.entities[k]);
                                }
                            }
                        }
                    } else {
                        assert(self@ == move_step(w, action, props));
                    }
                },
                _ => {
                    assert(self@ == move_step(w, action, props));
                },
            }
            i = i + 1;
        }
        proof {
            assert(v0.actions.take(n) =~= v0.actions);
        }
    }

    /// Whether a dead entity covers the map position `p`.
    fn dead_covers(&self, p: Vec2i, entity_properties: &Vec<EntityProperties>) -> (r: bool)
        requires
            sim_fits(self@),
            properties_fit(entity_properties@),
        ensures
            r == exists|j: int|
                0 <= j < self@.entities.len() && (#[trigger] self@.entities[j]).health <= 0
                    && self@.entities[j].spec_bounds(entity_properties@).spec_contains(p),
    {
        let ghost v = self@;
        let mut j: usize = 0;
        while j < self.entities.len()
            invariant
                v == self@,
                sim_fits(v),
                properties_fit(entity_properties@),
                j <= v.entities.len(),
                forall|i: int| 0 <= i < j ==> !((#[trigger] v.entities[i]).health <= 0 && v.entities[i].spec_bounds(entity_properties@).spec_contains(p)),
            decreases v.entities.len() - j,
        {
            let e = self.entities[j];
            proof {
                assert(small_position(e.position));
            }
            if e.health <= 0 && e.bounds(entity_properties).contains(p) {
                return true;
            }
            j = j + 1;
        }
        false
    }

    /// The end of a tick, as `finished` tells.
    fn finish_tick(&mut self, entity_properties: &Vec<EntityProperties>)
        requires
            sim_fits(old(self)@),
            properties_fit(entity_properties@),
        ensures
            final(self)@ == finished(old(self)@, entity_properties@),
    {
        let ghost v = self@;
        let ghost props = entity_properties@;
        self.actions.clear();
        let n = self.tiles.len();
        let size = self.map_size;
        let mut k: usize = 0;
        while k < n
            invariant
                props == entity_properties@,
                properties_fit(props),
                sim_fits(v),
                self@.entities == v.entities,
                self@.shift == v.shift,
                self@.map_size == v.map_size,
                self@.players == v.players,
                self@.actions == Seq::<SimulatedEntityAction>::empty(),
                size == v.map_size,
                n == v.tiles.len(),
                self@.tiles.len() == n,
                k <= n,
                forall|x: int| 0 <= x < k ==> #[trigger] self@.tiles[x] == (if under_dead(v, props, x) { None } else { v.tiles[x] }),
                forall|x: int| k <= x < n ==> #[trigger] self@.tiles[x] == v.tiles[x],
            decreases n - k,
        {
            proof {
                assert(sim_fits(self@));
                assert(k / size < size) by (nonlinear_arith)
                    requires
                        k < size * size,
                        0 < size,
                ;
                crate::grid::lemma_index_position_roundtrip(k as int, size as int);
            }
            let q = crate::grid::index_to_position(k, size);
            let p = q + self.shift;
            proof {
                assert(q == index_position(v.map_size, k as int));
                assert(p == shifted(index_position(v.map_size, k as int), v.shift));
            }
            if self.dead_covers(p, entity_properties) {
                self.tiles.set(k, None);
            }
            k = k + 1;
        }
        let mut kept: Vec<SimulatedEntity> = Vec::new();
        let bounds = self.bounds();
        let mut i: usize = 0;
        while i < self.entities.len()
            invariant
                props == entity_properties@,
                properties_fit(props),
                sim_fits(v),
                self@.entities == v.entities,
                bounds == sim_bounds(v),
                i <= v.entities.len(),
                kept@ == v.entities.take(i as int).filter(|e: SimulatedEntity| stays(v, props, e)),
            decreases v.entities.len() - i,
        {
            let e = self.entities[i];
            proof {
                assert(small_position(e.position));
                reveal(Seq::filter);
                assert(v.entities.take(i + 1).drop_last() =~= v.entities.take(i as int));
                assert(v.entities.take(i + 1).last() == e);
            }
            if e.health > 0 && bounds.overlaps(&e.bounds(entity_properties)) {
                kept.push(e);
            }
            i = i + 1;
        }
        proof {
            assert(v.entities.take(v.entities.len() as int) =~= v.entities);
            assert(self@.tiles =~= Seq::new(v.tiles.len(), |k: int| if under_dead(v, props, k) { None } else { v.tiles[k] }));
        }
        self.entities = kept;
    }

    /// Plays one tick: every entity is free to act again; automatic attacks come to what they
    /// mean now; the actions are put in an order drawn from `rng`; then the attacks happen in
    /// that order, then the moves; the actions are used up, the tiles under dead entities are
    /// freed, and only entities alive and still on the square stay.
    pub fn simulate(&mut self, entity_properties: &Vec<EntityProperties>, rng: &mut StdRng)
        requires
            sim_fits(old(self)@),
            properties_fit(entity_properties@),
            tallies_fit(old(self)@.players, old(self)@.actions.len() as int),
            moves_fit(old(self)@.actions),
            forall|i: int| 0 <= i < old(self)@.actions.len() ==> has_entity(old(self)@.entities, #[trigger] old(self)@.actions[i].entity_id),
            forall|k: int|
                0 <= k < old(self)@.entities.len() && props_of(entity_properties@, #[trigger] old(self)@.entities[k]).can_move
                    ==> sim_bounds(old(self)@).spec_contains(old(self)@.entities[k].position),
        ensures
            exists|resolved: Seq<SimulatedEntityAction>, order: Seq<SimulatedEntityAction>|
                #[trigger] resolved_ok(all_available(old(self)@), entity_properties@, old(self)@.actions, resolved)
                    && #[trigger] order.to_multiset() == resolved.to_multiset() && final(self)@ == played(
                    SimView { actions: order, ..all_available(old(self)@) },
                    order,
                    entity_properties@,
                ),
    {
        let ghost v0 = self@;
        let ghost props = entity_properties@;
        let mut i: usize = 0;
        while i < self.entities.len()
            invariant
                i <= self.entities.len(),
                self.entities.len() == v0.entities.len(),
                self@ == (SimView { entities: self@.entities, ..v0 }),
                forall|k: int| 0 <= k < i ==> #[trigger] self@.entities[k] == refreshed(v0.entities[k]),
                forall|k: int| i <= k < v0.entities.len() ==> #[trigger] self@.entities[k] == v0.entities[k],
            decreases v0.entities.len() - i,
        {
            let e = self.entities[i];
            self.entities.set(i, SimulatedEntity { available: true, ..e });
            i = i + 1;
        }
        let ghost v1 = self@;
        proof {
            assert(v1.entities =~= v0.entities.map_values(|e: SimulatedEntity| refreshed(e)));
            assert(v1 == all_available(v0));
            assert(same_places(v0.entities, v1.entities));
            assert(same_ids(v0.players, v1.players));
            lemma_fits_by_shape(v0, v1);
            assert forall|i: int| 0 <= i < v1.actions.len() implies has_entity(v1.entities, #[trigger] v1.actions[i].entity_id) by {
                assert(has_entity(v0.entities, v0.actions[i].entity_id));
                let k = choose|k: int| 0 <= k < v0.entities.len() && v0.entities[k].id == v0.actions[i].entity_id;
                assert(v1.entities[k].id == v0.actions[i].entity_id);
            }
            assert forall|k: int|
                0 <= k < v1.entities.len() && props_of(props, #[trigger] v1.entities[k]).can_move implies sim_bounds(v1).spec_contains(
                    v1.entities[k].position,
                ) by {
                assert(v1.entities[k].position == v0.entities[k].position);
                assert(v1.entities[k].entity_type == v0.entities[k].entity_type);
            }
        }
        self.resolve_auto_attacks(entity_properties);
        let ghost resolved = self@.actions;
        proof {
            lemma_resolved_moves_fit(v1, props, v1.actions, resolved);
        }
        shuffle(&mut self.actions, rng);
        let ghost order = self@.actions;
        let ghost v2 = self@;
        proof {
            lemma_order_from(resolved, order, v1);
            assert(v2 == (SimView { actions: order, ..all_available(v0) }));
            lemma_fits_by_shape(v1, v2);
        }
        self.apply_attacks(entity_properties);
        let ghost v3 = self@;
        proof {
            assert(same_kinds(v2.entities, v3.entities));
            assert forall|k: int|
                0 <= k < v3.entities.len() && (#[trigger] v3.entities[k]).available && props_of(props, v3.entities[k]).can_move
                    implies sim_bounds(v3).spec_contains(v3.entities[k].position) by {
                assert(v3.entities[k].position == v2.entities[k].position);
                assert(v3.entities[k].entity_type == v2.entities[k].entity_type);
                assert(v2.entities[k].position == v1.entities[k].position);
                assert(v2.entities[k].entity_type == v1.entities[k].entity_type);
            }
            assert forall|i: int| 0 <= i < v3.actions.len() implies has_entity(v3.entities, #[trigger] v3.actions[i].entity_id) by {
                assert(has_entity(v1.entities, order[i].entity_id));
                let k = choose|k: int| 0 <= k < v1.entities.len() && v1.entities[k].id == order[i].entity_id;
                assert(v3.entities[k].id == order[i].entity_id);
            }
        }
        self.apply_moves(entity_properties);
        self.finish_tick(entity_properties);
        proof {
            assert(resolved_ok(all_available(v0), props, v0.actions, resolved));
            assert(order.to_multiset() == resolved.to_multiset());
        }
    }

    /// The first step from `src` toward `target` along a path over free tiles that an A*
    /// search (path cost plus distance to the target's square) finds, heading for a cell within
    /// `range` of the target or, failing that, the nearest cell it meets.
    fn find_shortest_path_next_position(&self, src: Vec2i, target: &SimulatedEntity, range: i32, entity_properties: &Vec<EntityProperties>) -> (r: Option<Vec2i>)
        requires
            sim_fits(self@),
            properties_fit(entity_properties@),
            small_position(target.position),
            sim_bounds(self@).spec_contains(src),
        ensures
            next_step_ok(self@, src, target.spec_bounds(entity_properties@), range, r),
    {
        let ghost v = self@;
        let size = self.map_size;
        proof {
            lemma_entity_rect_small(target.position, entity_properties@[spec_type_index(target.entity_type)].size as int);
        }
        let target_bounds = target.bounds(entity_properties);
        let goal = ShiftedRange { bounds: target_bounds, shift: self.shift, range };
        let entry_costs = entry_costs_of(&self.tiles);
        let (mut costs, mut backtrack) = fresh_search(size * size);
        let start = src - self.shift;
        let ghost s = size as int;
        proof {
            assert(in_map(s, start));
            assert forall|i: int| 0 <= i < entry_costs@.len() && (#[trigger] entry_costs@[i]) is Some implies 1 <= entry_costs@[i]->0 <= 1 by {}
            assert(s * s * 1 < i32::MAX) by (nonlinear_arith)
                requires
                    0 < s <= 0x400,
            ;
            assert(entry_costs_fit(s, entry_costs@, 1));
            assert forall|p: Vec2i| in_map(s, p) implies i32::MIN < #[trigger] goal.target_distance(p) && goal.target_distance(p) + s * s * 1 < i32::MAX by {
                lemma_small_distances(target_bounds, target_bounds, shifted(p, self.shift));
                assert(s * s <= 0x10_0000) by (nonlinear_arith)
                    requires
                        0 < s <= 0x400,
                ;
            }
            assert(distances_fit(s, &goal, 1));
            assert forall|p: Vec2i| in_map(s, p) implies #[trigger] goal.target_defined(p) by {
                lemma_small_distances(target_bounds, target_bounds, shifted(p, self.shift));
            }
        }
        let destination = a_star(size, start, &goal, true, &entry_costs, &mut costs, &mut backtrack);
        proof {
            assert(entry_costs@ == tile_costs(v.tiles));
            assert(start == relative(v, src));
            assert(target_bounds == target.spec_bounds(entity_properties@));
            assert(goal == ShiftedRange { bounds: target.spec_bounds(entity_properties@), shift: v.shift, range });
        }
        match destination {
            None => None,
            Some(d) => {
                proof {
                    crate::grid::lemma_cell_index_in_range(s, start);
                }
                let src_index = position_to_index(start, size);
                if d == src_index {
                    return None;
                }
                proof {
                    lemma_search_tree_reaches_src(costs@, backtrack@, src_index as int, d as int);
                }
                let indices = visit_reversed_shortest_path(src_index, d, &backtrack);
                let ghost len = choose|len: nat| first_hit(backtrack@, src_index as int, d as int, len);
                proof {
                    assert(back_path(backtrack@, src_index as int, d as int).len() == len);
                    lemma_branch_path(s, entry_costs@, costs@, backtrack@, src_index as int, d as int, len, false);
                }
                let first = indices[indices.len() - 1];
                proof {
                    let bp = back_path(backtrack@, src_index as int, d as int);
                    assert(first as int == bp[len - 1]);
                    assert(first as int == walk(backtrack@, d as int, (len - 1) as nat));
                    crate::grid::lemma_position_index_roundtrip(start.x as int, start.y as int, s);
                    assert(index_position(s, src_index as int) == start);
                    assert(first < s * s);
                    assert(first / size < size) by (nonlinear_arith)
                        requires
                            first < size * size,
                            0 < size,
                    ;
                }
                let q = crate::grid::index_to_position(first, size);
                proof {
                    assert(q == index_position(s, first as int));
                    assert(passable_cells(entry_costs@)[first as int]);
                    crate::search::lemma_index_in_map_pub(s, first as int);
                    assert(cell_index(s, q) == first);
                    assert(search_outcome(s, passable_cells(tile_costs(v.tiles)), start, &goal, true, Some(d)));
                    assert(index_position(s, d as int) != start) by {
                        crate::search::lemma_index_in_map_pub(s, d as int);
                        if index_position(s, d as int) == start {
                            assert(cell_index(s, start) == d);
                        }
                    }
                }
                Some(q + self.shift)
            },
        }
    }

    pub fn shift(&self) -> (r: Vec2i)
        ensures
            r == self@.shift,
    {
        self.shift
    }

    pub fn map_size(&self) -> (r: usize)
        ensures
            r == self@.map_size,
    {
        self.map_size
    }

    pub fn players(&self) -> (r: &Vec<SimulatedPlayer>)
        ensures
            r@ == self@.players,
    {
        &self.players
    }

    pub fn entities(&self) -> (r: &Vec<SimulatedEntity>)
        ensures
            r@ == self@.entities,
    {
        &self.entities
    }

    pub fn tiles(&self) -> (r: &Vec<Option<i32>>)
        ensures
            r@ == self@.tiles,
    {
        &self.tiles
    }

    /// The entity with id `entity_id`, which must be there.
    pub fn get_entity(&self, entity_id: i32) -> (r: &SimulatedEntity)
        requires
            sim_wf(self@),
            has_entity(self@.entities, entity_id),
        ensures
            *r == self@.entities[entity_index(self@.entities, entity_id)],
    {
        let found = find_entity_index(&self.entities, entity_id);
        match found {
            Some(k) => &self.entities[k],
            None => {
                assert(false);
                &self.entities[0]
            },
        }
    }

    /// A copy of the simulation.
    pub fn duplicate(&self) -> (r: Self)
        ensures
            r@ == self@,
    {
        EntitySimulator {
            shift: self.shift,
            map_size: self.map_size,
            entities: copied(&self.entities),
            tiles: copied(&self.tiles),
            actions: copied(&self.actions),
            players: copied(&self.players),
        }
    }

    /// Whether the simulation keeps every computation of a tick in range (`sim_fits`).
    pub fn fits(&self) -> (r: bool)
        ensures
            r == sim_fits(self@),
    {
        let size = self.map_size;
        if size == 0 || size > 0x400 {
            return false;
        }
        assert(size * size <= 0x10_0000) by (nonlinear_arith)
            requires
                size <= 0x400,
        ;
        if self.tiles.len() != size * size {
            return false;
        }
        if self.shift.x < -0x80_0000 || self.shift.x > 0x80_0000 || self.shift.y < -0x80_0000 || self.shift.y > 0x80_0000 {
            return false;
        }
        let entities = &self.entities;
        let players = &self.players;
        let mut i: usize = 1;
        while i < entities.len()
            invariant
                1 <= i,
                entities.len() > 0 ==> i <= entities.len() && sorted_by_id(entities@.take(i as int)),
                entities@ == self@.entities,
            decreases entities.len() - i,
        {
            if entities[i - 1].id >= entities[i].id {
                proof {
                    assert(!sorted_by_id(self@.entities)) by {
                        assert(self@.entities[i - 1].id >= self@.entities[i as int].id);
                    }
                }
                return false;
            }
            proof {
                let t = entities@.take(i + 1);
                assert forall|a: int, b: int| 0 <= a < b < t.len() implies #[trigger] t[a].id < #[trigger] t[b].id by {
                    assert(t[a] == entities@[a]);
                    assert(t[b] == entities@[b]);
                    if b < i {
                        assert(entities@.take(i as int)[a] == entities@[a]);
                        assert(entities@.take(i as int)[b] == entities@[b]);
                    } else if a < i - 1 {
                        assert(entities@.take(i as int)[a] == entities@[a]);
                        assert(entities@.take(i as int)[i - 1] == entities@[i - 1]);
                    }
                }
            }
            i = i + 1;
        }
        proof {
            if entities.len() > 0 {
                assert(entities@.take(entities.len() as int) =~= entities@);
            }
        }
        let mut a: usize = 0;
        while a < players.len()
            invariant
                a <= players.len(),
                players@ == self@.players,
                forall|x: int, y: int| 0 <= x < a && 0 <= y < a && x != y ==> #[trigger] players@[x].id != #[trigger] players@[y].id,
            decreases players.len() - a,
        {
            let mut b: usize = 0;
            while b < a
                invariant
                    a < players.len(),
                    b <= a,
                    players@ == self@.players,
                    forall|y: int| 0 <= y < b ==> #[trigger] players@[y].id != players@[a as int].id,
                decreases a - b,
            {
                if players[b].id == players[a].id {
                    proof {
                        assert(!distinct_players(self@.players)) by {
                            assert(self@.players[b as int].id == self@.players[a as int].id);
                        }
                    }
                    return false;
                }
                b = b + 1;
            }
            a = a + 1;
        }
        let mut k: usize = 0;
        while k < entities.len()
            invariant
                k <= entities.len(),
                entities@ == self@.entities,
                players@ == self@.players,
                forall|j: int| 0 <= j < k ==> small_position(#[trigger] entities@[j].position),
                forall|j: int| 0 <= j < k && (#[trigger] entities@[j]).player_id is Some ==> has_player(players@, entities@[j].player_id->0),
            decreases entities.len() - k,
        {
            let e = entities[k];
            if e.position.x < -0x100_0000 || e.position.x > 0x100_0000 || e.position.y < -0x100_0000 || e.position.y > 0x100_0000 {
                proof {
                    assert(!small_position(self@.entities[k as int].position));
                }
                return false;
            }
            match e.player_id {
                Some(id) => {
                    let mut j: usize = 0;
                    let mut found = false;
                    while j < players.len()
                        invariant
                            j <= players.len(),
                            found ==> has_player(players@, id),
                            !found ==> forall|x: int| 0 <= x < j ==> #[trigger] players@[x].id != id,
                        decreases players.len() - j,
                    {
                        if players[j].id == id {
                            found = true;
                            proof {
                                assert(players@[j as int].id == id);
                            }
                        }
                        j = j + 1;
                    }
                    if !found {
                        proof {
                            assert(!has_player(self@.players, id));
                            assert(self@.entities[k as int].player_id is Some);
                        }
                        return false;
                    }
                },
                None => {},
            }
            k = k + 1;
        }
        true
    }

    /// Whether a tick can be played now: everything `simulate_ready` asks holds.
    pub fn can_simulate(&self, entity_properties: &Vec<EntityProperties>) -> (r: bool)
        ensures
            r == simulate_ready(self@, entity_properties@),
    {
        if !self.fits() || !properties_fit_check(entity_properties) {
            return false;
        }
        let n = self.actions.len() as i128;
        assert(n <= 0xffff_ffff_ffff_ffff);
        let budget = n * 0x10_0000;
        let players = &self.players;
        let mut a: usize = 0;
        while a < players.len()
            invariant
                a <= players.len(),
                players@ == self@.players,
                budget == self@.actions.len() * 0x10_0000,
                0 <= budget <= 0xffff_ffff_ffff_ffff * 0x10_0000,
                forall|x: int| 0 <= x < a ==> {
                    let p = #[trigger] players@[x];
                    &&& p.score + budget <= i32::MAX
                    &&& p.damage_done + budget <= i32::MAX
                    &&& p.damage_received + budget <= i32::MAX
                },
            decreases players.len() - a,
        {
            let p = players[a];
            if p.score as i128 + budget > i32::MAX as i128 || p.damage_done as i128 + budget > i32::MAX as i128
                || p.damage_received as i128 + budget > i32::MAX as i128 {
                proof {
                    assert(self@.players[a as int] == p);
                    assert(!tallies_fit(self@.players, self@.actions.len() as int));
                }
                return false;
            }
            a = a + 1;
        }
        let actions = &self.actions;
        let mut i: usize = 0;
        while i < actions.len()
            invariant
                i <= actions.len(),
                sim_fits(self@),
                actions@ == self@.actions,
                forall|x: int| 0 <= x < i ==> has_entity(self@.entities, #[trigger] actions@[x].entity_id),
                forall|x: int|
                    0 <= x < i ==> match (#[trigger] actions@[x]).action_type {
                        SimulatedEntityActionType::MoveEntity { direction } => abs_int(direction.x as int) + abs_int(direction.y as int) <= 1,
                        _ => true,
                    },
            decreases actions.len() - i,
        {
            let action = actions[i];
            match action.action_type {
                SimulatedEntityActionType::MoveEntity { direction } => {
                    let dx: i64 = if direction.x < 0 { -(direction.x as i64) } else { direction.x as i64 };
                    let dy: i64 = if direction.y < 0 { -(direction.y as i64) } else { direction.y as i64 };
                    if dx + dy > 1 {
                        return false;
                    }
                },
                _ => {},
            }
            if find_entity_index(&self.entities, action.entity_id).is_none() {
                return false;
            }
            i = i + 1;
        }
        let bounds = self.bounds();
        let entities = &self.entities;
        let mut k: usize = 0;
        while k < entities.len()
            invariant
                k <= entities.len(),
                entities@ == self@.entities,
                entity_properties.len() == ENTITY_TYPES_COUNT,
                bounds == sim_bounds(self@),
                forall|x: int|
                    0 <= x < k && props_of(entity_properties@, #[trigger] entities@[x]).can_move ==> bounds.spec_contains(
                        entities@[x].position,
                    ),
            decreases entities.len() - k,
        {
            let e = entities[k];
            if entity_properties[e.entity_type.index()].can_move && !bounds.contains(e.position) {
                return false;
            }
            k = k + 1;
        }
        true
    }

    /// Adds an action for the next tick.
    pub fn add_action(&mut self, action: SimulatedEntityAction)
        ensures
            final(self)@ == (SimView { actions: old(self)@.actions.push(action), ..old(self)@ }),
    {
        self.actions.push(action);
    }

    /// Entity `entity_index` attacks entity `target_index`, as `spec_attack` tells.
    fn attack(&mut self, entity_index: usize, target_index: usize, entity_properties: &Vec<EntityProperties>)
        requires
            sim_fits(old(self)@),
            properties_fit(entity_properties@),
            entity_index < old(self)@.entities.len(),
            target_index < old(self)@.entities.len(),
            tallies_fit(old(self)@.players, 1),
        ensures
            final(self)@ == spec_attack(old(self)@, entity_index as int, target_index as int, entity_properties@),
    {
        let ghost v0 = self@;
        let target = self.entities[target_index];
        let entity = self.entities[entity_index];
        if target.health <= 0 || !self.bounds().contains(target.position) {
            return;
        }
        let properties = &entity_properties[entity.entity_type.index()];
        let target_properties = &entity_properties[target.entity_type.index()];
        proof {
            assert(properties == entity_properties@[spec_type_index(entity.entity_type)]);
            assert(target_properties == entity_properties@[spec_type_index(target.entity_type)]);
            assert(small_position(entity.position));
            assert(small_position(target.position));
        }
        match &properties.attack {
            None => {},
            Some(attack) => {
                let entity_bounds = entity.bounds(entity_properties);
                let target_bounds = target.bounds(entity_properties);
                proof {
                    lemma_entity_rect_small(entity.position, properties.size as int);
                    lemma_entity_rect_small(target.position, target_properties.size as int);
                    lemma_small_distances(entity_bounds, target_bounds, target.position);
                }
                if entity_bounds.distance(&target_bounds) > attack.attack_range {
                    return;
                }
                let health = target.health;
                let new_health = target.health - attack.damage;
                let hit = SimulatedEntity { health: new_health, ..target };
                self.entities.set(target_index, hit);
                match target.player_id {
                    None => {},
                    Some(target_player_id) => {
                        let damage = health - new_health;
                        let tp = find_player_index(&self.players, target_player_id);
                        let p = self.players[tp];
                        proof {
                            assert(v0.players[tp as int] == p);
                        }
                        self.players.set(tp, SimulatedPlayer { damage_received: p.damage_received + damage, ..p });
                        let ghost p1 = self.players@;
                        proof {
                            assert(p1 == received(v0.players, target_player_id, damage as int));
                            assert(distinct_players(p1));
                        }
                        match entity.player_id {
                            None => {},
                            Some(entity_player_id) => {
                                proof {
                                    let k = player_index(v0.players, entity_player_id);
                                    assert(has_player(p1, entity_player_id)) by {
                                        assert(p1[k].id == entity_player_id);
                                    }
                                }
                                let ep = find_player_index(&self.players, entity_player_id);
                                let q = self.players[ep];
                                self.players.set(ep, SimulatedPlayer { damage_done: q.damage_done + damage, ..q });
                                let ghost p2 = self.players@;
                                if new_health <= 0 {
                                    proof {
                                        assert(has_player(p2, entity_player_id)) by {
                                            assert(p2[ep as int].id == entity_player_id);
                                        }
                                    }
                                    let sp = find_player_index(&self.players, entity_player_id);
                                    let r = self.players[sp];
                                    self.players.set(sp, SimulatedPlayer { score: r.score + target_properties.destroy_score, ..r });
                                }
                            },
                        }
                    },
                }
            },
        }
    }
}


/// The entity of the world `e` as the simulation holds it, free to act.
pub open spec fn simulated_of(e: crate::world::Entity) -> SimulatedEntity {
    SimulatedEntity {
        id: e.id,
        entity_type: e.entity_type,
        position: e.position,
        player_id: e.player_id,
        health: e.health,
        active: e.active,
        available: true,
    }
}

/// The cells of the square of side `size` at `shift` as the world shows them: on each cell of
/// the map that shows an entity, that entity (found by id); elsewhere nothing.
pub open spec fn world_cells(w: crate::world::World, shift: Vec2i, size: int) -> Seq<Option<SimulatedEntity>> {
    Seq::new(
        (size * size) as nat,
        |i: int|
            {
                let p = shifted(index_position(size, i), shift);
                if w.spec_map().spec_contains(p) {
                    match w.spec_map().tile_at(p) {
                        crate::map::Tile::Entity(id) => Some(
                            simulated_of(w.spec_entities()[crate::world::last_index_of(w.spec_entities(), id)]),
                        ),
                        _ => None,
                    }
                } else {
                    None
                }
            },
    )
}

/// The players of the world as the simulation starts them: id and score.
pub open spec fn world_players(w: crate::world::World) -> Seq<(i32, i32)> {
    w.spec_players().map_values(|p: crate::world::Player| (p.id, p.score))
}

impl EntitySimulator {
    /// The simulation of the square of side `map_size` at `shift` of the world: the entities the
    /// world's map shows there (each once, by id) and the world's players.
    pub fn from_world(shift: Vec2i, map_size: usize, world: &crate::world::World) -> (r: Self)
        requires
            world.wf(),
            0 < map_size <= i32::MAX,
            map_size * map_size <= usize::MAX,
            in_i32(shift.x + map_size),
            in_i32(shift.y + map_size),
            forall|p: Vec2i|
                world.spec_map().spec_contains(p) ==> (#[trigger] world.spec_map().tile_at(p) matches crate::map::Tile::Entity(
                    id,
                ) ==> crate::world::last_index_of(world.spec_entities(), id) >= 0),
            forall|i: int, j: int|
                0 <= i < world.spec_players().len() && 0 <= j < world.spec_players().len() && i != j ==> (
                #[trigger] world.spec_players()[i]).id != (#[trigger] world.spec_players()[j]).id,
        ensures
            sim_wf(r@),
            r@.shift == shift,
            r@.map_size == map_size,
            r@.tiles == world_cells(*world, shift, map_size as int).map_values(|c: Option<SimulatedEntity>| tile_of(c)),
            collected(world_cells(*world, shift, map_size as int), (map_size * map_size) as int, r@.entities),
            r@.actions == Seq::<SimulatedEntityAction>::empty(),
            r@.players == world_players(*world).map_values(|p: (i32, i32)| new_player(p)),
    {
        let n = map_size * map_size;
        let ghost s = map_size as int;
        let mut cells: Vec<Option<SimulatedEntity>> = Vec::new();
        let mut i: usize = 0;
        while i < n
            invariant
                world.wf(),
                n == map_size * map_size,
                s == map_size,
                0 < map_size <= i32::MAX,
                in_i32(shift.x + map_size),
                in_i32(shift.y + map_size),
                forall|p: Vec2i|
                    world.spec_map().spec_contains(p) ==> (#[trigger] world.spec_map().tile_at(p) matches crate::map::Tile::Entity(
                        id,
                    ) ==> crate::world::last_index_of(world.spec_entities(), id) >= 0),
                i <= n,
                cells@.len() == i,
                forall|k: int| 0 <= k < i ==> #[trigger] cells@[k] == world_cells(*world, shift, s)[k],
            decreases n - i,
        {
            let x = i % map_size;
            let y = i / map_size;
            proof {
                assert(y < map_size) by (nonlinear_arith)
                    requires
                        i < map_size * map_size,
                        y == i / map_size,
                        0 < map_size,
                ;
            }
            let p = Vec2i::new(shift.x + x as i32, shift.y + y as i32);
            let cell = if world.contains(p) {
                match world.get_tile(p) {
                    crate::map::Tile::Entity(entity_id) => {
                        let e = world.get_entity(entity_id);
                        Some(
                            SimulatedEntity {
                                id: e.id,
                                entity_type: e.entity_type,
                                position: e.position,
                                player_id: e.player_id,
                                health: e.health,
                                active: e.active,
                                available: true,
                            },
                        )
                    },
                    _ => None,
                }
            } else {
                None
            };
            cells.push(cell);
            proof {
                assert(p == shifted(index_position(s, i as int), shift));
            }
            i = i + 1;
        }
        let mut players: Vec<(i32, i32)> = Vec::new();
        let mut j: usize = 0;
        while j < world.players().len()
            invariant
                j <= world.spec_players().len(),
                players@ == world_players(*world).take(j as int),
            decreases world.spec_players().len() - j,
        {
            let pl = &world.players()[j];
            players.push((pl.id, pl.score));
            proof {
                assert(players@ =~= world_players(*world).take(j + 1));
            }
            j = j + 1;
        }
        proof {
            assert(cells@ =~= world_cells(*world, shift, s));
            assert(players@ =~= world_players(*world));
        }
        EntitySimulator::new(shift, map_size, &cells, &players)
    }
}

} // verus!
