use vstd::prelude::*;
use std::collections::HashMap;
use crate::entity_type::{
    blank_properties, spec_is_base, spec_is_protected, spec_is_unit, spec_type_index, EntityProperties,
    EntityType, ENTITY_TYPES_COUNT,
};
use crate::grid::{in_map, rect_between, rect_border_cells, visit_range_cells};
use crate::map::{expected_tile, map_bounds, valid_map_entity, GameMap, MapEntity, Tile};
use crate::rect::Rect;
use crate::vec2::{in_i32, manhattan, trunc_div, Vec2i};

verus! {

broadcast use vstd::std_specs::hash::group_hash_axioms;

/// An entity as the game shows it: a unit, a building, a resource or a wall.
#[derive(Debug, Clone, Copy, PartialEq, Eq, Structural)]
pub struct Entity {
    pub id: i32,
    pub player_id: Option<i32>,
    pub entity_type: EntityType,
    pub position: Vec2i,
    pub health: i32,
    pub active: bool,
}

/// A player as the game shows it.
#[derive(Debug, Clone, Copy, PartialEq, Eq, Structural)]
pub struct Player {
    pub id: i32,
    pub score: i32,
    pub resource: i32,
}

/// What the game tells the bot at the start of a tick. The properties come as pairs of a kind
/// and what holds of it.
#[derive(Debug, Clone)]
pub struct PlayerView {
    pub my_id: i32,
    pub map_size: i32,
    pub fog_of_war: bool,
    pub entity_properties: Vec<(EntityType, EntityProperties)>,
    pub max_tick_count: i32,
    pub max_pathfind_nodes: i32,
    pub current_tick: i32,
    pub players: Vec<Player>,
    pub entities: Vec<Entity>,
}

/// Whether the entity belongs to the player `player`.
pub open spec fn owned_by(e: Entity, player: i32) -> bool {
    e.player_id == Some(player)
}

/// Whether the entity belongs to a player other than `player`.
pub open spec fn opposed_to(e: Entity, player: i32) -> bool {
    match e.player_id {
        Some(p) => p != player,
        None => false,
    }
}

/// Where the last entity with id `id` stands among `es`, or -1.
pub open spec fn last_index_of(es: Seq<Entity>, id: i32) -> int
    decreases es.len(),
{
    if es.len() == 0 {
        -1
    } else if es.last().id == id {
        es.len() - 1
    } else {
        last_index_of(es.drop_last(), id)
    }
}

/// Where the first player with id `id` stands among `ps`, or -1.
pub open spec fn first_player_index(ps: Seq<Player>, id: i32) -> int
    decreases ps.len(),
{
    if ps.len() == 0 {
        -1
    } else {
        let k = first_player_index(ps.drop_last(), id);
        if k >= 0 {
            k
        } else if ps.last().id == id {
            ps.len() - 1
        } else {
            -1
        }
    }
}

/// Where the first builder unit of `player` stands among `es`, or -1.
pub open spec fn first_builder_index(es: Seq<Entity>, player: i32) -> int
    decreases es.len(),
{
    if es.len() == 0 {
        -1
    } else {
        let k = first_builder_index(es.drop_last(), player);
        if k >= 0 {
            k
        } else if owned_by(es.last(), player) && es.last().entity_type == EntityType::BuilderUnit {
            es.len() - 1
        } else {
            -1
        }
    }
}

/// The properties of the kind at index `k` as the pairs tell them: those of the last pair for
/// that kind, blank when there is none.
pub open spec fn properties_table(pairs: Seq<(EntityType, EntityProperties)>, k: int) -> EntityProperties
    decreases pairs.len(),
{
    if pairs.len() == 0 {
        blank_properties()
    } else if spec_type_index(pairs.last().0) == k {
        pairs.last().1
    } else {
        properties_table(pairs.drop_last(), k)
    }
}

/// The corner coordinate of the map on the side of `c`, and the direction away from it.
pub open spec fn start_axis(c: int, map_size: int) -> (int, int) {
    if c < trunc_div(map_size, 2) {
        (0, 1)
    } else {
        (map_size - 1, -1)
    }
}

/// The groups of entities the world answers queries about.
#[derive(Debug, Clone, Copy, PartialEq, Eq, Structural)]
pub enum EntityQuery {
    Resources,
    Mine,
    Opponents,
    MyTurrets,
    MyBuildings,
    MyBases,
    MyBuilderBases,
    MyMeleeBases,
    MyRangedBases,
    MyUnits,
    MyBuilderUnits,
}

/// Whether the query `q` of player `me` picks the entity `e`.
pub open spec fn picks(q: EntityQuery, me: i32, props: Seq<EntityProperties>, e: Entity) -> bool {
    match q {
        EntityQuery::Resources => e.entity_type == EntityType::Resource,
        EntityQuery::Mine => owned_by(e, me),
        EntityQuery::Opponents => opposed_to(e, me),
        EntityQuery::MyTurrets => owned_by(e, me) && e.entity_type == EntityType::Turret,
        EntityQuery::MyBuildings => owned_by(e, me) && !props[spec_type_index(e.entity_type)].can_move,
        EntityQuery::MyBases => owned_by(e, me) && spec_is_base(e.entity_type),
        EntityQuery::MyBuilderBases => owned_by(e, me) && e.entity_type == EntityType::BuilderBase,
        EntityQuery::MyMeleeBases => owned_by(e, me) && e.entity_type == EntityType::MeleeBase,
        EntityQuery::MyRangedBases => owned_by(e, me) && e.entity_type == EntityType::RangedBase,
        EntityQuery::MyUnits => owned_by(e, me) && spec_is_unit(e.entity_type),
        EntityQuery::MyBuilderUnits => owned_by(e, me) && e.entity_type == EntityType::BuilderUnit,
    }
}

/// The entities of `es` that the query picks, in their order.
pub open spec fn picked(es: Seq<Entity>, q: EntityQuery, me: i32, props: Seq<EntityProperties>) -> Seq<Entity>
    decreases es.len(),
{
    if es.len() == 0 {
        es
    } else {
        let rest = picked(es.drop_last(), q, me, props);
        if picks(q, me, props, es.last()) {
            rest.push(es.last())
        } else {
            rest
        }
    }
}

/// How many entities of `es` belong to `me` and are of the kind at index `k`.
pub open spec fn kind_count(es: Seq<Entity>, me: i32, k: int) -> nat
    decreases es.len(),
{
    if es.len() == 0 {
        0
    } else {
        kind_count(es.drop_last(), me, k) + if owned_by(es.last(), me) && spec_type_index(es.last().entity_type)
            == k {
            1nat
        } else {
            0nat
        }
    }
}

/// The counts of the kinds below `n` whose entities can move.
pub open spec fn moving_total(counts: Seq<usize>, props: Seq<EntityProperties>, n: int) -> int
    decreases n,
{
    if n <= 0 {
        0
    } else {
        moving_total(counts, props, n - 1) + if props[n - 1].can_move {
            counts[n - 1] as int
        } else {
            0
        }
    }
}

/// The same total taken over the entities.
pub open spec fn moving_kind_total(es: Seq<Entity>, me: i32, props: Seq<EntityProperties>, n: int) -> int
    decreases n,
{
    if n <= 0 {
        0
    } else {
        moving_kind_total(es, me, props, n - 1) + if props[n - 1].can_move {
            kind_count(es, me, n - 1) as int
        } else {
            0
        }
    }
}

/// The centre of a square of side `size` at `p`, as the game rounds it.
pub open spec fn square_center(p: Vec2i, size: int) -> Vec2i {
    Vec2i { x: (p.x + trunc_div(size, 2)) as i32, y: (p.y + trunc_div(size, 2)) as i32 }
}

/// How far from `start` an entity of the perimeter makes the player protect: its centre's
/// distance, half its size and its sight.
pub open spec fn guard_radius(e: Entity, props: Seq<EntityProperties>, start: Vec2i) -> int {
    let p = props[spec_type_index(e.entity_type)];
    manhattan(square_center(e.position, p.size as int), start) + trunc_div(p.size as int, 2) + p.sight_range
}

/// Whether the guard radius of an entity can be computed without overflow.
pub open spec fn guard_radius_fits(e: Entity, props: Seq<EntityProperties>, start: Vec2i) -> bool {
    let p = props[spec_type_index(e.entity_type)];
    &&& in_i32(e.position.x + trunc_div(p.size as int, 2))
    &&& in_i32(e.position.y + trunc_div(p.size as int, 2))
    &&& manhattan(square_center(e.position, p.size as int), start) <= i32::MAX
    &&& in_i32(manhattan(square_center(e.position, p.size as int), start) + trunc_div(p.size as int, 2))
    &&& in_i32(guard_radius(e, props, start))
}

/// The largest guard radius among the entities of `me` that the perimeter protects, if any.
pub open spec fn protected_radius_of(es: Seq<Entity>, me: i32, props: Seq<EntityProperties>, start: Vec2i) -> Option<int>
    decreases es.len(),
{
    if es.len() == 0 {
        None
    } else {
        let rest = protected_radius_of(es.drop_last(), me, props, start);
        let e = es.last();
        if owned_by(e, me) && spec_is_protected(e.entity_type) {
            let v = guard_radius(e, props, start);
            match rest {
                Some(m) => if m >= v {
                    Some(m)
                } else {
                    Some(v)
                },
                None => Some(v),
            }
        } else {
            rest
        }
    }
}

/// Whether some active base of `me` builds units of kind `t`.
pub open spec fn has_active_base(es: Seq<Entity>, me: i32, props: Seq<EntityProperties>, t: EntityType) -> bool {
    exists|i: int|
        0 <= i < es.len() && #[trigger] owned_by(es[i], me) && spec_is_base(es[i].entity_type) && es[i].active
            && props[spec_type_index(es[i].entity_type)].build == Some(t)
}

/// Whether the map can hold the entity: its square lies on a map of side `size` and its sight
/// can be measured.
pub open spec fn placed(e: Entity, props: Seq<EntityProperties>, size: int) -> bool {
    valid_map_entity(map_entity_of(e, props), size)
}

pub open spec fn all_placed(es: Seq<Entity>, props: Seq<EntityProperties>, size: int) -> bool {
    forall|i: int| 0 <= i < es.len() ==> placed(#[trigger] es[i], props, size)
}

/// How the map sees an entity: its square and its sight as its kind has them.
pub open spec fn map_entity_of(e: Entity, props: Seq<EntityProperties>) -> MapEntity {
    MapEntity {
        id: e.id,
        player_id: e.player_id,
        position: e.position,
        size: props[spec_type_index(e.entity_type)].size,
        sight_range: props[spec_type_index(e.entity_type)].sight_range,
    }
}

/// The state of the game as the bot knows it, with the resource and population that tasks have
/// set aside this tick.
pub struct World {
    my_id: i32,
    map_size: i32,
    fog_of_war: bool,
    entity_properties: Vec<EntityProperties>,
    max_tick_count: i32,
    max_pathfind_nodes: i32,
    current_tick: i32,
    players: Vec<Player>,
    entities: Vec<Entity>,
    entities_by_id: HashMap<i32, usize>,
    my_entities_count: Vec<usize>,
    map: GameMap,
    population_use: i32,
    population_provide: i32,
    start_position: Vec2i,
    grow_direction: Vec2i,
    requested_resource: i32,
    allocated_resource: i32,
    allocated_population: i32,
    player_power: Vec<i32>,
    is_attacked_by_opponent: Vec<bool>,
}

impl World {
    pub closed spec fn spec_my_id(self) -> i32 {
        self.my_id
    }

    pub closed spec fn spec_map_size(self) -> i32 {
        self.map_size
    }

    pub closed spec fn spec_fog_of_war(self) -> bool {
        self.fog_of_war
    }

    pub closed spec fn spec_current_tick(self) -> i32 {
        self.current_tick
    }

    pub closed spec fn spec_max_tick_count(self) -> i32 {
        self.max_tick_count
    }

    pub closed spec fn spec_max_pathfind_nodes(self) -> i32 {
        self.max_pathfind_nodes
    }

    pub closed spec fn spec_properties(self) -> Seq<EntityProperties> {
        self.entity_properties@
    }

    pub closed spec fn spec_players(self) -> Seq<Player> {
        self.players@
    }

    pub closed spec fn spec_entities(self) -> Seq<Entity> {
        self.entities@
    }

    pub closed spec fn spec_counts(self) -> Seq<usize> {
        self.my_entities_count@
    }

    pub closed spec fn spec_map(self) -> GameMap {
        self.map
    }

    pub closed spec fn spec_population_use(self) -> i32 {
        self.population_use
    }

    pub closed spec fn spec_population_provide(self) -> i32 {
        self.population_provide
    }

    pub closed spec fn spec_start_position(self) -> Vec2i {
        self.start_position
    }

    pub closed spec fn spec_grow_direction(self) -> Vec2i {
        self.grow_direction
    }

    pub closed spec fn spec_requested(self) -> i32 {
        self.requested_resource
    }

    pub closed spec fn spec_allocated(self) -> i32 {
        self.allocated_resource
    }

    pub closed spec fn spec_allocated_population(self) -> i32 {
        self.allocated_population
    }

    pub closed spec fn spec_power(self) -> Seq<i32> {
        self.player_power@
    }

    pub closed spec fn spec_attacked(self) -> Seq<bool> {
        self.is_attacked_by_opponent@
    }

    /// The lookup by id points at the last entity with that id; the tables have one entry per
    /// kind and one flag per map cell.
    pub closed spec fn wf(self) -> bool {
        &&& self.entity_properties.len() == ENTITY_TYPES_COUNT
        &&& self.my_entities_count.len() == ENTITY_TYPES_COUNT
        &&& self.map.wf()
        &&& self.map.spec_size() == self.map_size
        &&& 0 <= self.map_size
        &&& self.map_size * self.map_size <= usize::MAX
        &&& self.is_attacked_by_opponent.len() == self.map_size * self.map_size
        &&& all_placed(self.entities@, self.entity_properties@, self.map_size as int)
        &&& forall|k: int|
            0 <= k < ENTITY_TYPES_COUNT ==> #[trigger] self.my_entities_count@[k] == kind_count(
                self.entities@,
                self.my_id,
                k,
            )
        &&& forall|id: i32| #[trigger]
            self.entities_by_id@.contains_key(id) <==> last_index_of(self.entities@, id) >= 0
        &&& forall|id: i32| #[trigger]
            self.entities_by_id@.contains_key(id) ==> self.entities_by_id@[id] == last_index_of(
                self.entities@,
                id,
            )
    }

    /// The value of a query on the world.
    pub open spec fn selected(self, q: EntityQuery) -> Seq<Entity> {
        picked(self.spec_entities(), q, self.spec_my_id(), self.spec_properties())
    }

    /// The resource left to the player once the requests and allocations of this tick are taken.
    pub open spec fn spec_my_resource(self) -> int {
        self.spec_players()[first_player_index(self.spec_players(), self.spec_my_id())].resource
            - self.spec_requested() - self.spec_allocated()
    }

    /// Whether the player is listed and its free resource can be computed without overflow.
    pub open spec fn my_resource_defined(self) -> bool {
        let r = self.spec_players()[first_player_index(self.spec_players(), self.spec_my_id())].resource;
        &&& first_player_index(self.spec_players(), self.spec_my_id()) >= 0
        &&& in_i32(r - self.spec_requested())
        &&& in_i32(r - self.spec_requested() - self.spec_allocated())
    }

    /// The cost of the next entity of kind `t`: units grow dearer with each one the player has.
    pub open spec fn spec_entity_cost(self, t: EntityType) -> int {
        let p = self.spec_properties()[spec_type_index(t)];
        p.initial_cost + if p.can_move {
            (self.spec_counts()[spec_type_index(t)] as i32) as int
        } else {
            0
        }
    }
}

/// The last index with an id is in range, holds that id, and nothing after it does.
pub proof fn lemma_last_index_bounds(es: Seq<Entity>, id: i32)
    ensures
        -1 <= last_index_of(es, id) < es.len(),
        last_index_of(es, id) >= 0 ==> es[last_index_of(es, id)].id == id,
        last_index_of(es, id) >= 0 <==> exists|i: int| 0 <= i < es.len() && es[i].id == id,
        forall|i: int| last_index_of(es, id) < i < es.len() ==> es[i].id != id,
    decreases es.len(),
{
    if es.len() > 0 {
        lemma_last_index_bounds(es.drop_last(), id);
        if es.last().id != id {
            if last_index_of(es.drop_last(), id) < 0 {
                assert forall|i: int| 0 <= i < es.len() implies es[i].id != id by {
                    if i < es.len() - 1 {
                        assert(es.drop_last()[i] == es[i]);
                    }
                }
            } else {
                let k = last_index_of(es.drop_last(), id);
                assert(es.drop_last()[k] == es[k]);
                assert forall|i: int| k < i < es.len() implies es[i].id != id by {
                    if i < es.len() - 1 {
                        assert(es.drop_last()[i] == es[i]);
                    }
                }
            }
        }
    }
}

proof fn lemma_first_player_bounds(ps: Seq<Player>, id: i32)
    ensures
        -1 <= first_player_index(ps, id) < ps.len(),
        first_player_index(ps, id) >= 0 ==> ps[first_player_index(ps, id)].id == id,
        first_player_index(ps, id) < 0 ==> forall|i: int| 0 <= i < ps.len() ==> ps[i].id != id,
        forall|i: int| 0 <= i < first_player_index(ps, id) ==> ps[i].id != id,
    decreases ps.len(),
{
    if ps.len() > 0 {
        lemma_first_player_bounds(ps.drop_last(), id);
        let k = first_player_index(ps.drop_last(), id);
        if k >= 0 {
            assert(ps.drop_last()[k] == ps[k]);
            assert forall|i: int| 0 <= i < k implies ps[i].id != id by {
                assert(ps.drop_last()[i] == ps[i]);
            }
        } else {
            assert forall|i: int| 0 <= i < ps.len() - 1 implies ps[i].id != id by {
                assert(ps.drop_last()[i] == ps[i]);
            }
        }
    }
}

proof fn lemma_first_builder_bounds(es: Seq<Entity>, player: i32)
    ensures
        -1 <= first_builder_index(es, player) < es.len(),
        first_builder_index(es, player) >= 0 ==> owned_by(es[first_builder_index(es, player)], player)
            && es[first_builder_index(es, player)].entity_type == EntityType::BuilderUnit,
        forall|i: int|
            0 <= i < es.len() && (first_builder_index(es, player) < 0 || i < first_builder_index(es, player))
                ==> !(owned_by(es[i], player) && es[i].entity_type == EntityType::BuilderUnit),
    decreases es.len(),
{
    if es.len() > 0 {
        lemma_first_builder_bounds(es.drop_last(), player);
        let k = first_builder_index(es.drop_last(), player);
        if k >= 0 {
            assert(es.drop_last()[k] == es[k]);
        }
        assert forall|i: int|
            0 <= i < es.len() && (first_builder_index(es, player) < 0 || i < first_builder_index(es, player))
                implies !(owned_by(es[i], player) && es[i].entity_type == EntityType::BuilderUnit) by {
            if i < es.len() - 1 {
                assert(es.drop_last()[i] == es[i]);
            }
        }
    }
}

/// Splitting the moving total of kind counts by the last entity: it adds one exactly when that
/// entity is mine, of a kind below `n`, and of a kind that moves.
proof fn lemma_moving_kind_total_step(es: Seq<Entity>, me: i32, props: Seq<EntityProperties>, n: int)
    requires
        es.len() > 0,
        0 <= n,
    ensures
        moving_kind_total(es, me, props, n) == moving_kind_total(es.drop_last(), me, props, n) + if owned_by(
            es.last(),
            me,
        ) && spec_type_index(es.last().entity_type) < n && props[spec_type_index(es.last().entity_type)].can_move {
            1int
        } else {
            0int
        },
    decreases n,
{
    if n > 0 {
        lemma_moving_kind_total_step(es, me, props, n - 1);
    }
}

/// The moving total never exceeds the number of entities.
proof fn lemma_moving_kind_total_bound(es: Seq<Entity>, me: i32, props: Seq<EntityProperties>, n: int)
    requires
        0 <= n,
    ensures
        0 <= moving_kind_total(es, me, props, n) <= es.len(),
    decreases es.len(),
{
    if es.len() == 0 {
        lemma_moving_kind_total_empty(es, me, props, n);
    } else {
        lemma_moving_kind_total_step(es, me, props, n);
        lemma_moving_kind_total_bound(es.drop_last(), me, props, n);
    }
}

proof fn lemma_moving_kind_total_empty(es: Seq<Entity>, me: i32, props: Seq<EntityProperties>, n: int)
    requires
        es.len() == 0,
    ensures
        moving_kind_total(es, me, props, n) == 0,
    decreases n,
{
    if n > 0 {
        lemma_moving_kind_total_empty(es, me, props, n - 1);
    }
}

proof fn lemma_moving_totals_agree(
    counts: Seq<usize>,
    es: Seq<Entity>,
    me: i32,
    props: Seq<EntityProperties>,
    n: int,
)
    requires
        0 <= n <= counts.len(),
        forall|k: int| 0 <= k < counts.len() ==> counts[k] == kind_count(es, me, k),
    ensures
        moving_total(counts, props, n) == moving_kind_total(es, me, props, n),
    decreases n,
{
    if n > 0 {
        lemma_moving_totals_agree(counts, es, me, props, n - 1);
    }
}


impl World {
    /// The world before its first update: the kinds' properties taken from the view, the start
    /// at the map corner nearest to the player's first builder, growing toward the middle, and
    /// a map of unknown tiles with nothing locked.
    pub fn new(player_view: &PlayerView) -> (r: Self)
        requires
            0 <= player_view.map_size,
            player_view.map_size * player_view.map_size <= usize::MAX,
            player_view.entity_properties.len() == ENTITY_TYPES_COUNT,
            first_builder_index(player_view.entities@, player_view.my_id) >= 0,
        ensures
            r.wf(),
            r.spec_my_id() == player_view.my_id,
            r.spec_map_size() == player_view.map_size,
            r.spec_fog_of_war() == player_view.fog_of_war,
            r.spec_max_tick_count() == player_view.max_tick_count,
            r.spec_max_pathfind_nodes() == player_view.max_pathfind_nodes,
            r.spec_current_tick() == player_view.current_tick,
            forall|k: int|
                0 <= k < ENTITY_TYPES_COUNT ==> #[trigger] r.spec_properties()[k] == properties_table(
                    player_view.entity_properties@,
                    k,
                ),
            r.spec_players().len() == 0,
            r.spec_entities().len() == 0,
            forall|p: Vec2i| r.spec_map().spec_contains(p) ==> r.spec_map().tile_at(p) == Tile::Unknown,
            forall|p: Vec2i| r.spec_map().spec_contains(p) ==> !r.spec_map().locked_at(p),
            r.spec_population_use() == 0,
            r.spec_population_provide() == 0,
            ({
                let b = player_view.entities@[first_builder_index(player_view.entities@, player_view.my_id)].position;
                &&& r.spec_start_position().x == start_axis(b.x as int, player_view.map_size as int).0
                &&& r.spec_start_position().y == start_axis(b.y as int, player_view.map_size as int).0
                &&& r.spec_grow_direction().x == start_axis(b.x as int, player_view.map_size as int).1
                &&& r.spec_grow_direction().y == start_axis(b.y as int, player_view.map_size as int).1
            }),
            r.spec_requested() == 0,
            r.spec_allocated() == 0,
            r.spec_allocated_population() == 0,
            r.spec_power().len() == player_view.players.len(),
            forall|i: int| 0 <= i < r.spec_power().len() ==> #[trigger] r.spec_power()[i] == 0,
            forall|i: int| 0 <= i < r.spec_attacked().len() ==> !#[trigger] r.spec_attacked()[i],
    {
        let pairs = &player_view.entity_properties;
        let mut entity_properties: Vec<EntityProperties> = Vec::new();
        let mut k: usize = 0;
        while k < pairs.len()
            invariant
                k <= pairs.len(),
                entity_properties.len() == k,
                forall|j: int| 0 <= j < k ==> #[trigger] entity_properties@[j] == blank_properties(),
            decreases pairs.len() - k,
        {
            entity_properties.push(EntityProperties::default());
            k = k + 1;
        }
        let mut i: usize = 0;
        while i < pairs.len()
            invariant
                i <= pairs.len(),
                pairs.len() == ENTITY_TYPES_COUNT,
                entity_properties.len() == ENTITY_TYPES_COUNT,
                forall|j: int|
                    0 <= j < ENTITY_TYPES_COUNT ==> #[trigger] entity_properties@[j] == properties_table(
                        pairs@.take(i as int),
                        j,
                    ),
            decreases pairs.len() - i,
        {
            let (t, v) = pairs[i];
            proof {
                assert(pairs@.take(i + 1).drop_last() =~= pairs@.take(i as int));
            }
            entity_properties.set(t.index(), v);
            i = i + 1;
        }
        proof {
            assert(pairs@.take(pairs.len() as int) =~= pairs@);
        }
        let es = &player_view.entities;
        let mut b: usize = 0;
        proof {
            lemma_first_builder_bounds(es@, player_view.my_id);
        }
        while b < es.len()
            invariant
                b <= first_builder_index(es@, player_view.my_id) < es.len(),
                forall|j: int|
                    0 <= j < first_builder_index(es@, player_view.my_id) ==> !(owned_by(es@[j], player_view.my_id)
                        && es@[j].entity_type == EntityType::BuilderUnit),
                owned_by(es@[first_builder_index(es@, player_view.my_id)], player_view.my_id)
                    && es@[first_builder_index(es@, player_view.my_id)].entity_type == EntityType::BuilderUnit,
            ensures
                b == first_builder_index(es@, player_view.my_id),
            decreases es.len() - b,
        {
            if es[b].player_id == Some(player_view.my_id) && es[b].entity_type == EntityType::BuilderUnit {
                break;
            }
            b = b + 1;
        }
        let first_builder_position = es[b].position;
        let half = player_view.map_size / 2;
        let (start_position_x, grow_direction_x) = if first_builder_position.x < half {
            (0, 1)
        } else {
            (player_view.map_size - 1, -1)
        };
        let (start_position_y, grow_direction_y) = if first_builder_position.y < half {
            (0, 1)
        } else {
            (player_view.map_size - 1, -1)
        };
        let mut my_entities_count: Vec<usize> = Vec::new();
        let mut c: usize = 0;
        while c < pairs.len()
            invariant
                c <= pairs.len(),
                my_entities_count.len() == c,
                forall|j: int| 0 <= j < c ==> #[trigger] my_entities_count@[j] == 0,
            decreases pairs.len() - c,
        {
            my_entities_count.push(0);
            c = c + 1;
        }
        let mut player_power: Vec<i32> = Vec::new();
        let mut q: usize = 0;
        while q < player_view.players.len()
            invariant
                q <= player_view.players.len(),
                player_power.len() == q,
                forall|j: int| 0 <= j < q ==> #[trigger] player_power@[j] == 0,
            decreases player_view.players.len() - q,
        {
            player_power.push(0);
            q = q + 1;
        }
        let cells = (player_view.map_size as usize) * (player_view.map_size as usize);
        let mut is_attacked_by_opponent: Vec<bool> = Vec::new();
        let mut a: usize = 0;
        while a < cells
            invariant
                a <= cells,
                is_attacked_by_opponent.len() == a,
                forall|j: int| 0 <= j < a ==> !#[trigger] is_attacked_by_opponent@[j],
            decreases cells - a,
        {
            is_attacked_by_opponent.push(false);
            a = a + 1;
        }
        let no_entities: Vec<crate::map::MapEntity> = Vec::new();
        let map = GameMap::new(player_view.map_size, true, player_view.my_id, &no_entities);
        let r = World {
            my_id: player_view.my_id,
            map_size: player_view.map_size,
            fog_of_war: player_view.fog_of_war,
            entity_properties,
            max_tick_count: player_view.max_tick_count,
            max_pathfind_nodes: player_view.max_pathfind_nodes,
            current_tick: player_view.current_tick,
            players: Vec::new(),
            entities: Vec::new(),
            entities_by_id: HashMap::new(),
            my_entities_count,
            map,
            population_use: 0,
            population_provide: 0,
            start_position: Vec2i::new(start_position_x, start_position_y),
            grow_direction: Vec2i::new(grow_direction_x, grow_direction_y),
            requested_resource: 0,
            allocated_resource: 0,
            allocated_population: 0,
            player_power,
            is_attacked_by_opponent,
        };
        proof {
            assert forall|id: i32| #[trigger] r.entities_by_id@.contains_key(id) <==> last_index_of(r.entities@, id) >= 0 by {
                assert(last_index_of(r.entities@, id) == -1);
            }
            assert forall|p: Vec2i| r.map.spec_contains(p) implies r.map.tile_at(p) == Tile::Unknown by {
                assert(crate::map::covering_entity(no_entities@, p) is None);
            }
        }
        r
    }

    pub fn my_id(&self) -> (r: i32)
        ensures
            r == self.spec_my_id(),
    {
        self.my_id
    }

    pub fn map_size(&self) -> (r: i32)
        ensures
            r == self.spec_map_size(),
    {
        self.map_size
    }

    pub fn current_tick(&self) -> (r: i32)
        ensures
            r == self.spec_current_tick(),
    {
        self.current_tick
    }

    pub fn get_entity_properties(&self, entity_type: &EntityType) -> (r: &EntityProperties)
        requires
            self.wf(),
        ensures
            *r == self.spec_properties()[spec_type_index(*entity_type)],
    {
        &self.entity_properties[entity_type.index()]
    }

    pub fn players(&self) -> (r: &Vec<Player>)
        ensures
            r@ == self.spec_players(),
    {
        &self.players
    }

    pub fn contains(&self, position: Vec2i) -> (r: bool)
        requires
            self.wf(),
        ensures
            r == self.spec_map().spec_contains(position),
    {
        self.map.contains(position)
    }

    pub fn get_tile(&self, position: Vec2i) -> (r: Tile)
        requires
            self.wf(),
            self.spec_map().spec_contains(position),
        ensures
            r == self.spec_map().tile_at(position),
    {
        self.map.get_tile(position)
    }

    pub fn is_tile_locked(&self, position: Vec2i) -> (r: bool)
        requires
            self.wf(),
            self.spec_map().spec_contains(position),
        ensures
            r == self.spec_map().locked_at(position),
    {
        self.map.is_tile_locked(position)
    }

    pub fn population_use(&self) -> (r: i32)
        ensures
            r == self.spec_population_use(),
    {
        self.population_use
    }

    pub fn population_provide(&self) -> (r: i32)
        ensures
            r == self.spec_population_provide(),
    {
        self.population_provide
    }

    pub fn start_position(&self) -> (r: Vec2i)
        ensures
            r == self.spec_start_position(),
    {
        self.start_position
    }

    pub fn grow_direction(&self) -> (r: Vec2i)
        ensures
            r == self.spec_grow_direction(),
    {
        self.grow_direction
    }

    /// The entity with id `entity_id`, which must be known.
    pub fn get_entity(&self, entity_id: i32) -> (r: &Entity)
        requires
            self.wf(),
            last_index_of(self.spec_entities(), entity_id) >= 0,
        ensures
            *r == self.spec_entities()[last_index_of(self.spec_entities(), entity_id)],
            r.id == entity_id,
    {
        proof {
            lemma_last_index_bounds(self.entities@, entity_id);
        }
        let index = *self.entities_by_id.get(&entity_id).unwrap();
        &self.entities[index]
    }

    /// The entity with id `entity_id`, if it is known.
    pub fn find_entity(&self, entity_id: i32) -> (r: Option<&Entity>)
        requires
            self.wf(),
        ensures
            match r {
                Some(e) => last_index_of(self.spec_entities(), entity_id) >= 0 && *e == self.spec_entities()[last_index_of(
                    self.spec_entities(),
                    entity_id,
                )] && e.id == entity_id,
                None => last_index_of(self.spec_entities(), entity_id) < 0,
            },
    {
        proof {
            lemma_last_index_bounds(self.entities@, entity_id);
        }
        match self.entities_by_id.get(&entity_id) {
            Some(index) => Some(&self.entities[*index]),
            None => None,
        }
    }

    /// Whether an entity with id `entity_id` is known.
    pub fn contains_entity(&self, entity_id: i32) -> (r: bool)
        requires
            self.wf(),
        ensures
            r == (last_index_of(self.spec_entities(), entity_id) >= 0),
            r == exists|i: int| 0 <= i < self.spec_entities().len() && self.spec_entities()[i].id == entity_id,
    {
        proof {
            lemma_last_index_bounds(self.entities@, entity_id);
        }
        self.entities_by_id.contains_key(&entity_id)
    }

    pub fn entities(&self) -> (r: &Vec<Entity>)
        ensures
            r@ == self.spec_entities(),
    {
        &self.entities
    }

    pub fn entity_properties(&self) -> (r: &Vec<EntityProperties>)
        ensures
            r@ == self.spec_properties(),
    {
        &self.entity_properties
    }

    /// Whether the query `q` picks the entity.
    fn picks_entity(&self, q: EntityQuery, e: &Entity) -> (r: bool)
        requires
            self.wf(),
        ensures
            r == picks(q, self.my_id, self.entity_properties@, *e),
    {
        let mine = e.player_id == Some(self.my_id);
        match q {
            EntityQuery::Resources => e.entity_type == EntityType::Resource,
            EntityQuery::Mine => mine,
            EntityQuery::Opponents => match e.player_id {
                Some(p) => p != self.my_id,
                None => false,
            },
            EntityQuery::MyTurrets => mine && e.entity_type == EntityType::Turret,
            EntityQuery::MyBuildings => mine && !self.entity_properties[e.entity_type.index()].can_move,
            EntityQuery::MyBases => mine && crate::entity_type::is_entity_type_base(&e.entity_type),
            EntityQuery::MyBuilderBases => mine && e.entity_type == EntityType::BuilderBase,
            EntityQuery::MyMeleeBases => mine && e.entity_type == EntityType::MeleeBase,
            EntityQuery::MyRangedBases => mine && e.entity_type == EntityType::RangedBase,
            EntityQuery::MyUnits => mine && crate::entity_type::is_entity_type_unit(&e.entity_type),
            EntityQuery::MyBuilderUnits => mine && e.entity_type == EntityType::BuilderUnit,
        }
    }

    /// The entities the query `q` picks, in the world's order.
    pub fn select(&self, q: EntityQuery) -> (r: Vec<Entity>)
        requires
            self.wf(),
        ensures
            r@ == self.selected(q),
    {
        let mut r: Vec<Entity> = Vec::new();
        let mut i: usize = 0;
        while i < self.entities.len()
            invariant
                self.wf(),
                i <= self.entities.len(),
                r@ == picked(self.entities@.take(i as int), q, self.my_id, self.entity_properties@),
            decreases self.entities.len() - i,
        {
            proof {
                assert(self.entities@.take(i + 1).drop_last() =~= self.entities@.take(i as int));
            }
            let e = self.entities[i];
            if self.picks_entity(q, &e) {
                r.push(e);
            }
            i = i + 1;
        }
        proof {
            assert(self.entities@.take(self.entities.len() as int) =~= self.entities@);
        }
        r
    }

    pub fn resources(&self) -> (r: Vec<Entity>)
        requires
            self.wf(),
        ensures
            r@ == self.selected(EntityQuery::Resources),
    {
        self.select(EntityQuery::Resources)
    }

    pub fn my_entities(&self) -> (r: Vec<Entity>)
        requires
            self.wf(),
        ensures
            r@ == self.selected(EntityQuery::Mine),
    {
        self.select(EntityQuery::Mine)
    }

    pub fn opponent_entities(&self) -> (r: Vec<Entity>)
        requires
            self.wf(),
        ensures
            r@ == self.selected(EntityQuery::Opponents),
    {
        self.select(EntityQuery::Opponents)
    }

    pub fn my_turrets(&self) -> (r: Vec<Entity>)
        requires
            self.wf(),
        ensures
            r@ == self.selected(EntityQuery::MyTurrets),
    {
        self.select(EntityQuery::MyTurrets)
    }

    pub fn my_buildings(&self) -> (r: Vec<Entity>)
        requires
            self.wf(),
        ensures
            r@ == self.selected(EntityQuery::MyBuildings),
    {
        self.select(EntityQuery::MyBuildings)
    }

    pub fn my_bases(&self) -> (r: Vec<Entity>)
        requires
            self.wf(),
        ensures
            r@ == self.selected(EntityQuery::MyBases),
    {
        self.select(EntityQuery::MyBases)
    }

    pub fn my_builder_bases(&self) -> (r: Vec<Entity>)
        requires
            self.wf(),
        ensures
            r@ == self.selected(EntityQuery::MyBuilderBases),
    {
        self.select(EntityQuery::MyBuilderBases)
    }

    pub fn my_melee_bases(&self) -> (r: Vec<Entity>)
        requires
            self.wf(),
        ensures
            r@ == self.selected(EntityQuery::MyMeleeBases),
    {
        self.select(EntityQuery::MyMeleeBases)
    }

    pub fn my_ranged_bases(&self) -> (r: Vec<Entity>)
        requires
            self.wf(),
        ensures
            r@ == self.selected(EntityQuery::MyRangedBases),
    {
        self.select(EntityQuery::MyRangedBases)
    }

    pub fn my_units(&self) -> (r: Vec<Entity>)
        requires
            self.wf(),
        ensures
            r@ == self.selected(EntityQuery::MyUnits),
    {
        self.select(EntityQuery::MyUnits)
    }

    pub fn my_builder_units(&self) -> (r: Vec<Entity>)
        requires
            self.wf(),
        ensures
            r@ == self.selected(EntityQuery::MyBuilderUnits),
    {
        self.select(EntityQuery::MyBuilderUnits)
    }

    /// The first listed player with id `player_id`, which must be listed.
    pub fn get_player(&self, player_id: i32) -> (r: &Player)
        requires
            first_player_index(self.spec_players(), player_id) >= 0,
        ensures
            *r == self.spec_players()[first_player_index(self.spec_players(), player_id)],
    {
        proof {
            lemma_first_player_bounds(self.players@, player_id);
        }
        let mut i: usize = 0;
        while i < self.players.len()
            invariant
                i <= first_player_index(self.players@, player_id) < self.players.len(),
                forall|j: int| 0 <= j < first_player_index(self.players@, player_id) ==> self.players@[j].id != player_id,
                self.players@[first_player_index(self.players@, player_id)].id == player_id,
            ensures
                i == first_player_index(self.players@, player_id),
            decreases self.players.len() - i,
        {
            if self.players[i].id == player_id {
                break;
            }
            i = i + 1;
        }
        &self.players[i]
    }

    pub fn my_player(&self) -> (r: &Player)
        requires
            first_player_index(self.spec_players(), self.spec_my_id()) >= 0,
        ensures
            *r == self.spec_players()[first_player_index(self.spec_players(), self.spec_my_id())],
    {
        self.get_player(self.my_id)
    }
}


/// Whether the map cell `c` is on the map, unlocked and empty.
pub open spec fn free_cell(map: GameMap, c: Vec2i) -> bool {
    map.spec_contains(c) && !map.locked_at(c) && map.tile_at(c) == Tile::Empty
}

/// `r` is the first cell of `cands` that is free, or `None` when none is.
pub open spec fn is_first_free(map: GameMap, cands: Seq<Vec2i>, r: Option<Vec2i>) -> bool {
    match r {
        Some(q) => exists|k: int|
            0 <= k < cands.len() && cands[k] == q && free_cell(map, q) && forall|j: int|
                0 <= j < k ==> !free_cell(map, #[trigger] cands[j]),
        None => forall|j: int| 0 <= j < cands.len() ==> !free_cell(map, #[trigger] cands[j]),
    }
}

/// Whether a unit with id `unit_id` may step onto the cell `c`: on the map, unlocked, and empty
/// or already its own.
pub open spec fn open_for_unit(map: GameMap, c: Vec2i, unit_id: i32) -> bool {
    map.spec_contains(c) && !map.locked_at(c) && (map.tile_at(c) == Tile::Empty || map.tile_at(c) == Tile::Entity(
        unit_id,
    ))
}

/// The first of the cells of `cands` open for the unit that is nearest to `from`, if any.
pub open spec fn nearest_open(map: GameMap, cands: Seq<Vec2i>, unit_id: i32, from: Vec2i) -> Option<Vec2i>
    decreases cands.len(),
{
    if cands.len() == 0 {
        None
    } else {
        let rest = nearest_open(map, cands.drop_last(), unit_id, from);
        let c = cands.last();
        if open_for_unit(map, c, unit_id) && match rest {
            Some(q) => manhattan(from, q) > manhattan(from, c),
            None => true,
        } {
            Some(c)
        } else {
            rest
        }
    }
}

/// Whether a tile shows anything but empty ground.
fn shows_something(_position: Vec2i, tile: Tile, _locked: bool) -> (r: bool)
    ensures
        r == (tile != Tile::Empty),
{
    tile != Tile::Empty
}

/// Whether a tile is empty and unlocked.
fn is_free_tile(_position: Vec2i, tile: Tile, locked: bool) -> (r: bool)
    ensures
        r == (!locked && tile == Tile::Empty),
{
    !locked && tile == Tile::Empty
}

impl World {
    /// Whether two worlds agree on everything but the resource and population set aside.
    pub open spec fn same_but_ledger(self, other: World) -> bool {
        &&& (other.wf() ==> self.wf())
        &&& self.spec_my_id() == other.spec_my_id()
        &&& self.spec_map_size() == other.spec_map_size()
        &&& self.spec_fog_of_war() == other.spec_fog_of_war()
        &&& self.spec_current_tick() == other.spec_current_tick()
        &&& self.spec_max_tick_count() == other.spec_max_tick_count()
        &&& self.spec_max_pathfind_nodes() == other.spec_max_pathfind_nodes()
        &&& self.spec_properties() == other.spec_properties()
        &&& self.spec_players() == other.spec_players()
        &&& self.spec_entities() == other.spec_entities()
        &&& self.spec_counts() == other.spec_counts()
        &&& self.spec_map() == other.spec_map()
        &&& self.spec_population_use() == other.spec_population_use()
        &&& self.spec_population_provide() == other.spec_population_provide()
        &&& self.spec_start_position() == other.spec_start_position()
        &&& self.spec_grow_direction() == other.spec_grow_direction()
        &&& self.spec_power() == other.spec_power()
        &&& self.spec_attacked() == other.spec_attacked()
    }

    /// Whether two worlds agree on everything but the resource requested and the locks of the
    /// map.
    pub open spec fn same_but_requests_and_locks(self, other: World) -> bool {
        &&& (other.wf() ==> self.wf())
        &&& self.spec_my_id() == other.spec_my_id()
        &&& self.spec_map_size() == other.spec_map_size()
        &&& self.spec_fog_of_war() == other.spec_fog_of_war()
        &&& self.spec_current_tick() == other.spec_current_tick()
        &&& self.spec_max_tick_count() == other.spec_max_tick_count()
        &&& self.spec_max_pathfind_nodes() == other.spec_max_pathfind_nodes()
        &&& self.spec_properties() == other.spec_properties()
        &&& self.spec_players() == other.spec_players()
        &&& self.spec_entities() == other.spec_entities()
        &&& self.spec_counts() == other.spec_counts()
        &&& self.spec_population_use() == other.spec_population_use()
        &&& self.spec_population_provide() == other.spec_population_provide()
        &&& self.spec_start_position() == other.spec_start_position()
        &&& self.spec_grow_direction() == other.spec_grow_direction()
        &&& self.spec_allocated() == other.spec_allocated()
        &&& self.spec_allocated_population() == other.spec_allocated_population()
        &&& self.spec_power() == other.spec_power()
        &&& self.spec_attacked() == other.spec_attacked()
        &&& self.spec_map().spec_size() == other.spec_map().spec_size()
        &&& forall|p: Vec2i| self.spec_map().spec_contains(p) ==> self.spec_map().tile_at(p) == other.spec_map().tile_at(p)
    }

    /// Whether two worlds agree on everything but the locks of the map.
    pub open spec fn same_but_locks(self, other: World) -> bool {
        &&& (other.wf() ==> self.wf())
        &&& self.spec_my_id() == other.spec_my_id()
        &&& self.spec_map_size() == other.spec_map_size()
        &&& self.spec_fog_of_war() == other.spec_fog_of_war()
        &&& self.spec_current_tick() == other.spec_current_tick()
        &&& self.spec_max_tick_count() == other.spec_max_tick_count()
        &&& self.spec_max_pathfind_nodes() == other.spec_max_pathfind_nodes()
        &&& self.spec_properties() == other.spec_properties()
        &&& self.spec_players() == other.spec_players()
        &&& self.spec_entities() == other.spec_entities()
        &&& self.spec_counts() == other.spec_counts()
        &&& self.spec_population_use() == other.spec_population_use()
        &&& self.spec_population_provide() == other.spec_population_provide()
        &&& self.spec_start_position() == other.spec_start_position()
        &&& self.spec_grow_direction() == other.spec_grow_direction()
        &&& self.spec_requested() == other.spec_requested()
        &&& self.spec_allocated() == other.spec_allocated()
        &&& self.spec_allocated_population() == other.spec_allocated_population()
        &&& self.spec_power() == other.spec_power()
        &&& self.spec_attacked() == other.spec_attacked()
        &&& self.spec_map().spec_size() == other.spec_map().spec_size()
        &&& forall|p: Vec2i| self.spec_map().spec_contains(p) ==> self.spec_map().tile_at(p) == other.spec_map().tile_at(p)
    }

    /// The resource of the player less what this tick's tasks have requested and allocated.
    pub fn my_resource(&self) -> (r: i32)
        requires
            self.my_resource_defined(),
        ensures
            r == self.spec_my_resource(),
    {
        self.my_player().resource - self.requested_resource - self.allocated_resource
    }

    pub fn allocated_resource(&self) -> (r: i32)
        ensures
            r == self.spec_allocated(),
    {
        self.allocated_resource
    }

    pub fn requested_resource(&self) -> (r: i32)
        ensures
            r == self.spec_requested(),
    {
        self.requested_resource
    }

    pub fn allocated_population(&self) -> (r: i32)
        ensures
            r == self.spec_allocated_population(),
    {
        self.allocated_population
    }

    /// Sets `amount` of resource aside when that much is free.
    pub fn try_allocate_resource(&mut self, amount: i32) -> (r: bool)
        requires
            old(self).my_resource_defined(),
            old(self).spec_my_resource() >= amount ==> in_i32(old(self).spec_allocated() + amount),
        ensures
            r == (old(self).spec_my_resource() >= amount),
            final(self).same_but_ledger(*old(self)),
            final(self).spec_requested() == old(self).spec_requested(),
            final(self).spec_allocated_population() == old(self).spec_allocated_population(),
            final(self).spec_allocated() == if r {
                old(self).spec_allocated() + amount
            } else {
                old(self).spec_allocated() as int
            },
    {
        if self.my_resource() < amount {
            return false;
        }
        self.allocated_resource = self.allocated_resource + amount;
        true
    }

    /// Records a request for `amount` of resource when some resource is free.
    pub fn try_request_resources(&mut self, amount: i32) -> (r: bool)
        requires
            old(self).my_resource_defined(),
            old(self).spec_my_resource() > 0 ==> in_i32(old(self).spec_requested() + amount),
        ensures
            r == (old(self).spec_my_resource() > 0),
            final(self).same_but_ledger(*old(self)),
            final(self).spec_allocated() == old(self).spec_allocated(),
            final(self).spec_allocated_population() == old(self).spec_allocated_population(),
            final(self).spec_requested() == if r {
                old(self).spec_requested() + amount
            } else {
                old(self).spec_requested() as int
            },
    {
        if self.my_resource() <= 0 {
            return false;
        }
        self.requested_resource = self.requested_resource + amount;
        true
    }

    /// Withdraws a request for `amount` of resource.
    pub fn release_requested_resource(&mut self, amount: i32)
        requires
            in_i32(old(self).spec_requested() - amount),
        ensures
            final(self).same_but_ledger(*old(self)),
            final(self).spec_allocated() == old(self).spec_allocated(),
            final(self).spec_allocated_population() == old(self).spec_allocated_population(),
            final(self).spec_requested() == old(self).spec_requested() - amount,
    {
        self.requested_resource = self.requested_resource - amount;
    }

    /// The population the player's buildings provide less what this tick's tasks have allocated.
    pub fn my_population_provide(&self) -> (r: i32)
        requires
            in_i32(self.spec_population_provide() - self.spec_allocated_population()),
        ensures
            r == self.spec_population_provide() - self.spec_allocated_population(),
    {
        self.population_provide - self.allocated_population
    }

    /// Sets `resource` and `population` aside when both are free.
    pub fn try_allocated_resource_and_population(&mut self, resource: i32, population: i32) -> (r: bool)
        requires
            old(self).my_resource_defined(),
            old(self).spec_my_resource() >= resource ==> in_i32(
                old(self).spec_population_provide() - old(self).spec_allocated_population(),
            ),
            old(self).spec_my_resource() >= resource && old(self).spec_population_provide()
                - old(self).spec_allocated_population() >= population ==> in_i32(old(self).spec_allocated() + resource)
                && in_i32(old(self).spec_allocated_population() + population),
        ensures
            r == (old(self).spec_my_resource() >= resource && old(self).spec_population_provide()
                - old(self).spec_allocated_population() >= population),
            final(self).same_but_ledger(*old(self)),
            final(self).spec_requested() == old(self).spec_requested(),
            final(self).spec_allocated() == if r {
                old(self).spec_allocated() + resource
            } else {
                old(self).spec_allocated() as int
            },
            final(self).spec_allocated_population() == if r {
                old(self).spec_allocated_population() + population
            } else {
                old(self).spec_allocated_population() as int
            },
    {
        if self.my_resource() < resource || self.my_population_provide() < population {
            return false;
        }
        self.allocated_resource = self.allocated_resource + resource;
        self.allocated_population = self.allocated_population + population;
        true
    }

    /// Locks the cells of the square of side `size` at `position` that lie on the map.
    pub fn lock_square(&mut self, position: Vec2i, size: i32)
        requires
            old(self).wf(),
            in_i32(position.x + size),
            in_i32(position.y + size),
        ensures
            final(self).same_but_locks(*old(self)),
            forall|p: Vec2i|
                final(self).spec_map().spec_contains(p) ==> final(self).spec_map().locked_at(p) == (GameMap::in_square(
                    position,
                    size as int,
                    p,
                ) || old(self).spec_map().locked_at(p)),
    {
        self.map.lock_square(position, size);
    }

    /// Unlocks the cells of the square of side `size` at `position` that lie on the map.
    pub fn unlock_square(&mut self, position: Vec2i, size: i32)
        requires
            old(self).wf(),
            in_i32(position.x + size),
            in_i32(position.y + size),
        ensures
            final(self).same_but_locks(*old(self)),
            forall|p: Vec2i|
                final(self).spec_map().spec_contains(p) ==> final(self).spec_map().locked_at(p) == (!GameMap::in_square(
                    position,
                    size as int,
                    p,
                ) && old(self).spec_map().locked_at(p)),
    {
        self.map.unlock_square(position, size);
    }

    /// How many entities of kind `entity_type` the player has.
    pub fn get_my_entity_count_of(&self, entity_type: &EntityType) -> (r: usize)
        requires
            self.wf(),
        ensures
            r == self.spec_counts()[spec_type_index(*entity_type)],
            r == kind_count(self.spec_entities(), self.spec_my_id(), spec_type_index(*entity_type)),
    {
        self.my_entities_count[entity_type.index()]
    }

    /// How many of the player's entities are of kinds that move.
    pub fn get_my_units_count(&self) -> (r: usize)
        requires
            self.wf(),
        ensures
            r == moving_kind_total(self.spec_entities(), self.spec_my_id(), self.spec_properties(), ENTITY_TYPES_COUNT as int),
    {
        let mut total: usize = 0;
        let mut k: usize = 0;
        while k < self.my_entities_count.len()
            invariant
                self.wf(),
                k <= ENTITY_TYPES_COUNT,
                total == moving_kind_total(self.entities@, self.my_id, self.entity_properties@, k as int),
            decreases ENTITY_TYPES_COUNT - k,
        {
            proof {
                lemma_moving_totals_agree(self.my_entities_count@, self.entities@, self.my_id, self.entity_properties@, k + 1);
                lemma_moving_totals_agree(self.my_entities_count@, self.entities@, self.my_id, self.entity_properties@, k as int);
                lemma_moving_kind_total_bound(self.entities@, self.my_id, self.entity_properties@, k + 1);
                assert(self.entities@.len() == self.entities.len());
            }
            if self.entity_properties[k].can_move {
                total = total + self.my_entities_count[k];
            }
            k = k + 1;
        }
        total
    }

    /// What the next entity of kind `entity_type` costs: its initial cost, plus, for a unit,
    /// the number of such units the player already has.
    pub fn get_entity_cost(&self, entity_type: &EntityType) -> (r: i32)
        requires
            self.wf(),
            in_i32(self.spec_entity_cost(*entity_type)),
        ensures
            r == self.spec_entity_cost(*entity_type),
    {
        let properties = self.get_entity_properties(entity_type);
        let extra: i32 = if properties.can_move {
            self.get_my_entity_count_of(entity_type) as i32
        } else {
            0
        };
        properties.initial_cost + extra
    }

    /// Whether an opponent's entity can attack the cell `position` soon.
    pub fn is_attacked_by_opponents(&self, position: Vec2i) -> (r: bool)
        requires
            self.wf(),
            0 <= position.x,
            0 <= position.y,
            position.x + position.y * self.spec_map_size() < self.spec_attacked().len(),
        ensures
            r == self.spec_attacked()[position.x + position.y * self.spec_map_size()],
    {
        self.is_attacked_by_opponent[crate::grid::position_to_index(position, self.map_size as usize)]
    }

    /// Whether the guard radius of each entity of the perimeter can be computed.
    pub open spec fn radius_defined(self) -> bool {
        forall|i: int|
            0 <= i < self.spec_entities().len() && owned_by(#[trigger] self.spec_entities()[i], self.spec_my_id())
                && spec_is_protected(self.spec_entities()[i].entity_type) ==> guard_radius_fits(
                self.spec_entities()[i],
                self.spec_properties(),
                self.spec_start_position(),
            )
    }

    /// How far from the start the player protects: the largest guard radius of its entities of the
    /// perimeter, 0 when it has none.
    pub open spec fn spec_protected_radius(self) -> int {
        match protected_radius_of(self.spec_entities(), self.spec_my_id(), self.spec_properties(), self.spec_start_position()) {
            Some(v) => v,
            None => 0,
        }
    }

    pub fn get_protected_radius(&self) -> (r: i32)
        requires
            self.wf(),
            self.radius_defined(),
        ensures
            r == self.spec_protected_radius(),
    {
        let mut best: Option<i32> = None;
        let mut i: usize = 0;
        while i < self.entities.len()
            invariant
                self.wf(),
                self.radius_defined(),
                i <= self.entities.len(),
                match best {
                    Some(v) => protected_radius_of(self.entities@.take(i as int), self.my_id, self.entity_properties@, self.start_position)
                        == Some(v as int),
                    None => protected_radius_of(self.entities@.take(i as int), self.my_id, self.entity_properties@, self.start_position)
                        is None,
                },
            decreases self.entities.len() - i,
        {
            proof {
                assert(self.entities@.take(i + 1).drop_last() =~= self.entities@.take(i as int));
            }
            let e = self.entities[i];
            if e.player_id == Some(self.my_id) && crate::entity_type::is_protected_entity_type(&e.entity_type) {
                assert(self.entities@[i as int] == e);
                let properties = self.get_entity_properties(&e.entity_type);
                let half = properties.size / 2;
                let center = e.position + Vec2i::both(half);
                let v = center.distance(self.start_position) + half + properties.sight_range;
                best = match best {
                    Some(m) => if m >= v {
                        Some(m)
                    } else {
                        Some(v)
                    },
                    None => Some(v),
                };
            }
            i = i + 1;
        }
        proof {
            assert(self.entities@.take(self.entities.len() as int) =~= self.entities@);
        }
        match best {
            Some(v) => v,
            None => 0,
        }
    }

    /// Whether `position` lies within the protected radius of the start.
    pub fn is_inside_protected_perimeter(&self, position: Vec2i) -> (r: bool)
        requires
            self.wf(),
            self.radius_defined(),
            manhattan(position, self.spec_start_position()) <= i32::MAX,
        ensures
            r == (manhattan(position, self.spec_start_position()) <= self.spec_protected_radius()),
    {
        position.distance(self.start_position) <= self.get_protected_radius()
    }

    /// Whether an active base of the player builds units of kind `entity_type`.
    pub fn has_active_base_for(&self, entity_type: &EntityType) -> (r: bool)
        requires
            self.wf(),
        ensures
            r == has_active_base(self.spec_entities(), self.spec_my_id(), self.spec_properties(), *entity_type),
    {
        let mut i: usize = 0;
        while i < self.entities.len()
            invariant
                self.wf(),
                i <= self.entities.len(),
                forall|j: int|
                    0 <= j < i ==> !(#[trigger] owned_by(self.entities@[j], self.my_id) && spec_is_base(
                        self.entities@[j].entity_type,
                    ) && self.entities@[j].active && self.entity_properties@[spec_type_index(
                        self.entities@[j].entity_type,
                    )].build == Some(*entity_type)),
            decreases self.entities.len() - i,
        {
            let base = self.entities[i];
            if base.player_id == Some(self.my_id) && crate::entity_type::is_entity_type_base(&base.entity_type)
                && base.active {
                match self.entity_properties[base.entity_type.index()].build {
                    Some(build) => {
                        if build == *entity_type {
                            assert(owned_by(self.entities@[i as int], self.my_id));
                            return true;
                        }
                    },
                    None => {},
                }
            }
            i = i + 1;
        }
        false
    }

    /// The cells of the map.
    pub fn bounds(&self) -> (r: Rect)
        ensures
            r == (Rect { min: Vec2i { x: 0, y: 0 }, max: Vec2i { x: self.spec_map_size(), y: self.spec_map_size() } }),
    {
        Rect::new(Vec2i::zero(), Vec2i::both(self.map_size))
    }

    /// The kind of the entity a tile shows, if it shows one; that entity must be known.
    pub fn get_tile_entity_type(&self, tile: Tile) -> (r: Option<EntityType>)
        requires
            self.wf(),
            tile matches Tile::Entity(id) ==> last_index_of(self.spec_entities(), id) >= 0,
        ensures
            r == match tile {
                Tile::Entity(id) => Some(self.spec_entities()[last_index_of(self.spec_entities(), id)].entity_type),
                _ => None,
            },
    {
        match tile {
            Tile::Entity(entity_id) => Some(self.get_entity(entity_id).entity_type),
            _ => None,
        }
    }

    /// Whether every cell of the square of side `size` at `position` is on the map and empty.
    pub fn is_empty_square(&self, position: Vec2i, size: i32) -> (r: bool)
        requires
            self.wf(),
            in_i32(position.x + size),
            in_i32(position.y + size),
        ensures
            r == forall|c: Vec2i|
                #[trigger] crate::grid::rect_between(
                    position,
                    Vec2i { x: (position.x + size) as i32, y: (position.y + size) as i32 },
                ).contains(c) ==> self.spec_map().view_tile(c) == Tile::Empty,
    {
        let found = self.map.find_inside_square(
            position,
            size,
            shows_something,
        );
        let ghost cands = crate::grid::rect_between(
            position,
            Vec2i { x: (position.x + size) as i32, y: (position.y + size) as i32 },
        );
        proof {
            match found {
                Some(q) => {
                    let k = choose|k: int|
                        0 <= k < cands.len() && cands[k] == q && #[trigger] self.map.view_tile(q) != Tile::Empty;
                    assert(cands.contains(q));
                },
                None => {
                    assert forall|c: Vec2i| #[trigger] cands.contains(c) implies self.map.view_tile(c) == Tile::Empty by {
                        let j = choose|j: int| 0 <= j < cands.len() && cands[j] == c;
                        assert(cands[j] == c);
                    }
                },
            }
        }
        found.is_none()
    }

    /// The first cell just outside the square of side `size` at `position` that is free.
    pub fn find_free_tile_nearby(&self, position: Vec2i, size: i32) -> (r: Option<Vec2i>)
        requires
            self.wf(),
            in_i32(position.x - 1),
            in_i32(position.y - 1),
            in_i32(position.x + size),
            in_i32(position.y + size),
        ensures
            is_first_free(self.spec_map(), crate::grid::neighbour_cells(position, size as int), r),
    {
        let r = self.map.find_neighbour(
            position,
            size,
            is_free_tile,
        );
        r
    }

    /// Among the cells just outside the square of side `size` at `position` that the unit may
    /// step onto, the first nearest to the unit.
    pub fn find_nearest_free_tile_nearby_for_unit(&self, position: Vec2i, size: i32, unit_id: i32) -> (r: Option<Vec2i>)
        requires
            self.wf(),
            last_index_of(self.spec_entities(), unit_id) >= 0,
            in_i32(position.x - 1),
            in_i32(position.y - 1),
            in_i32(position.x + size),
            in_i32(position.y + size),
            forall|j: int|
                0 <= j < crate::grid::neighbour_cells(position, size as int).len() ==> manhattan(
                    self.spec_entities()[last_index_of(self.spec_entities(), unit_id)].position,
                    #[trigger] crate::grid::neighbour_cells(position, size as int)[j],
                ) <= i32::MAX,
        ensures
            r == nearest_open(
                self.spec_map(),
                crate::grid::neighbour_cells(position, size as int),
                unit_id,
                self.spec_entities()[last_index_of(self.spec_entities(), unit_id)].position,
            ),
    {
        let unit_position = self.get_entity(unit_id).position;
        let cands = crate::grid::neighbour_vec(position, size);
        let mut result: Option<Vec2i> = None;
        let mut i: usize = 0;
        while i < cands.len()
            invariant
                self.wf(),
                i <= cands.len(),
                forall|j: int| 0 <= j < cands.len() ==> manhattan(unit_position, #[trigger] cands@[j]) <= i32::MAX,
                result == nearest_open(self.map, cands@.take(i as int), unit_id, unit_position),
                result matches Some(q) ==> manhattan(unit_position, q) <= i32::MAX,
            decreases cands.len() - i,
        {
            proof {
                assert(cands@.take(i + 1).drop_last() =~= cands@.take(i as int));
            }
            let c = cands[i];
            assert(manhattan(unit_position, cands@[i as int]) <= i32::MAX);
            if self.map.contains(c) {
                let tile = self.map.get_tile(c);
                if !self.map.is_tile_locked(c) && (tile == Tile::Empty || tile == Tile::Entity(unit_id)) {
                    let closer = match result {
                        Some(q) => unit_position.distance(q) > unit_position.distance(c),
                        None => true,
                    };
                    if closer {
                        result = Some(c);
                    }
                }
            }
            i = i + 1;
        }
        proof {
            assert(cands@.take(cands.len() as int) =~= cands@);
        }
        result
    }
}


/// The entities of the last tick after those the view shows again replaced their indexed
/// copies: the copy the lookup by id points at takes the view's last entity with that id.
pub open spec fn refreshed(old: Seq<Entity>, view: Seq<Entity>) -> Seq<Entity> {
    Seq::new(
        old.len(),
        |i: int|
            if i == last_index_of(old, old[i].id) && last_index_of(view, old[i].id) >= 0 {
                view[last_index_of(view, old[i].id)]
            } else {
                old[i]
            },
    )
}

/// Whether some entity of `es` belongs to `me` and has id `k`.
pub open spec fn owned_id_among(es: Seq<Entity>, me: i32, k: i32) -> bool {
    exists|j: int| 0 <= j < es.len() && #[trigger] owned_by(es[j], me) && es[j].id == k
}

/// Whether the lookup by id still knows `k` once the ids of my refreshed entities left it.
pub open spec fn still_indexed(old: Seq<Entity>, view: Seq<Entity>, me: i32, k: i32) -> bool {
    last_index_of(old, k) >= 0 && !owned_id_among(refreshed(old, view), me, k)
}

/// The entities of `es` that do not belong to `me`, in their order.
pub open spec fn not_owned(es: Seq<Entity>, me: i32) -> Seq<Entity>
    decreases es.len(),
{
    if es.len() == 0 {
        es
    } else {
        let rest = not_owned(es.drop_last(), me);
        if owned_by(es.last(), me) {
            rest
        } else {
            rest.push(es.last())
        }
    }
}

/// Whether the map, drawn from the entities `shown`, shows the whole square of `e` as `e`.
pub open spec fn square_shown(
    fog_of_war: bool,
    me: i32,
    shown: Seq<MapEntity>,
    size: int,
    props: Seq<EntityProperties>,
    e: Entity,
) -> bool {
    let side = props[spec_type_index(e.entity_type)].size;
    forall|c: Vec2i|
        #[trigger] rect_between(
            e.position,
            Vec2i { x: (e.position.x + side) as i32, y: (e.position.y + side) as i32 },
        ).contains(c) ==> in_map(size, c) && expected_tile(fog_of_war, me, shown, size, c) == Tile::Entity(e.id)
}

/// The entities of `es` whose square the map shows as theirs, in their order.
pub open spec fn still_shown(
    es: Seq<Entity>,
    fog_of_war: bool,
    me: i32,
    shown: Seq<MapEntity>,
    size: int,
    props: Seq<EntityProperties>,
) -> Seq<Entity>
    decreases es.len(),
{
    if es.len() == 0 {
        es
    } else {
        let rest = still_shown(es.drop_last(), fog_of_war, me, shown, size, props);
        if square_shown(fog_of_war, me, shown, size, props, es.last()) {
            rest.push(es.last())
        } else {
            rest
        }
    }
}

/// The entities of the view whose id the lookup no longer knows, in their order.
pub open spec fn unindexed(view: Seq<Entity>, old: Seq<Entity>, all_view: Seq<Entity>, me: i32) -> Seq<Entity>
    decreases view.len(),
{
    if view.len() == 0 {
        view
    } else {
        let rest = unindexed(view.drop_last(), old, all_view, me);
        if still_indexed(old, all_view, me, view.last().id) {
            rest
        } else {
            rest.push(view.last())
        }
    }
}

pub open spec fn map_entities_of(es: Seq<Entity>, props: Seq<EntityProperties>) -> Seq<MapEntity> {
    Seq::new(es.len(), |i: int| map_entity_of(es[i], props))
}

/// The entities the world knows after an update under fog of war: those of the last tick
/// that others own, refreshed, whose square the map still shows as theirs, then the view's
/// entities whose id the lookup no longer knows.
pub open spec fn cached_next(
    old: Seq<Entity>,
    view: PlayerView,
    me: i32,
    size: int,
    props: Seq<EntityProperties>,
) -> Seq<Entity> {
    still_shown(
        not_owned(refreshed(old, view.entities@), view.my_id),
        view.fog_of_war,
        view.my_id,
        map_entities_of(view.entities@, props),
        size,
        props,
    ) + unindexed(view.entities@, old, view.entities@, me)
}

/// Replaces the indexed copy of each entity the view shows again.
fn refresh_cached(entities: &mut Vec<Entity>, index: &HashMap<i32, usize>, view: &Vec<Entity>)
    requires
        forall|id: i32| #[trigger] index@.contains_key(id) <==> last_index_of(old(entities)@, id) >= 0,
        forall|id: i32| #[trigger] index@.contains_key(id) ==> index@[id] == last_index_of(old(entities)@, id),
    ensures
        final(entities)@ == refreshed(old(entities)@, view@),
{
    let ghost old_es = entities@;
    let mut j: usize = 0;
    while j < view.len()
        invariant
            j <= view.len(),
            entities@.len() == old_es.len(),
            forall|id: i32| #[trigger] index@.contains_key(id) <==> last_index_of(old_es, id) >= 0,
            forall|id: i32| #[trigger] index@.contains_key(id) ==> index@[id] == last_index_of(old_es, id),
            forall|i: int|
                0 <= i < old_es.len() ==> #[trigger] entities@[i] == (if i == last_index_of(old_es, old_es[i].id)
                    && last_index_of(view@.take(j as int), old_es[i].id) >= 0 {
                    view@.take(j as int)[last_index_of(view@.take(j as int), old_es[i].id)]
                } else {
                    old_es[i]
                }),
        decreases view.len() - j,
    {
        let e = view[j];
        let ghost t1 = view@.take(j + 1);
        proof {
            assert(t1.drop_last() =~= view@.take(j as int));
            assert(t1.last() == e);
        }
        match index.get(&e.id) {
            Some(existing) => {
                proof {
                    lemma_last_index_bounds(old_es, e.id);
                }
                entities.set(*existing, e);
            },
            None => {},
        }
        proof {
            assert forall|i: int| 0 <= i < old_es.len() implies #[trigger] entities@[i] == (if i == last_index_of(
                old_es,
                old_es[i].id,
            ) && last_index_of(t1, old_es[i].id) >= 0 {
                t1[last_index_of(t1, old_es[i].id)]
            } else {
                old_es[i]
            }) by {
                lemma_last_index_bounds(view@.take(j as int), old_es[i].id);
                if old_es[i].id != e.id {
                    assert(last_index_of(t1, old_es[i].id) == last_index_of(view@.take(j as int), old_es[i].id));
                    if last_index_of(t1, old_es[i].id) >= 0 {
                        assert(t1[last_index_of(t1, old_es[i].id)] == view@.take(j as int)[last_index_of(
                            view@.take(j as int),
                            old_es[i].id,
                        )]);
                    }
                } else {
                    assert(last_index_of(t1, old_es[i].id) == j);
                }
            }
        }
        j = j + 1;
    }
    proof {
        assert(view@.take(view.len() as int) =~= view@);
        assert(entities@ =~= refreshed(old_es, view@));
    }
}

/// Removes from the lookup the ids of the entities that belong to `me`.
fn drop_owned_keys(index: &mut HashMap<i32, usize>, entities: &Vec<Entity>, me: i32)
    ensures
        forall|k: i32| #[trigger]
            final(index)@.contains_key(k) <==> (old(index)@.contains_key(k) && !owned_id_among(entities@, me, k)),
        forall|k: i32| #[trigger] final(index)@.contains_key(k) ==> final(index)@[k] == old(index)@[k],
{
    let ghost start = index@;
    let mut i: usize = 0;
    while i < entities.len()
        invariant
            i <= entities.len(),
            forall|k: i32| #[trigger]
                index@.contains_key(k) <==> (start.contains_key(k) && !owned_id_among(entities@.take(i as int), me, k)),
            forall|k: i32| #[trigger] index@.contains_key(k) ==> index@[k] == start[k],
        decreases entities.len() - i,
    {
        let e = entities[i];
        let ghost t1 = entities@.take(i + 1);
        let ghost t0 = entities@.take(i as int);
        if e.player_id == Some(me) {
            index.remove(&e.id);
        }
        proof {
            assert forall|k: i32| owned_id_among(t1, me, k) <==> (owned_id_among(t0, me, k) || (owned_by(e, me)
                && e.id == k)) by {
                if owned_id_among(t1, me, k) {
                    let w = choose|w: int| 0 <= w < t1.len() && #[trigger] owned_by(t1[w], me) && t1[w].id == k;
                    if w < i {
                        assert(t0[w] == t1[w]);
                    }
                }
                if owned_id_among(t0, me, k) {
                    let w = choose|w: int| 0 <= w < t0.len() && #[trigger] owned_by(t0[w], me) && t0[w].id == k;
                    assert(t1[w] == t0[w]);
                }
                if owned_by(e, me) && e.id == k {
                    assert(t1[i as int] == e);
                }
            }
        }
        i = i + 1;
    }
    proof {
        assert(entities@.take(entities.len() as int) =~= entities@);
    }
}

/// The entities of `es` that do not belong to `me`.
fn keep_not_owned(es: &Vec<Entity>, me: i32, Ghost(props): Ghost<Seq<EntityProperties>>, Ghost(size): Ghost<int>) -> (r: Vec<Entity>)
    requires
        all_placed(es@, props, size),
    ensures
        r@ == not_owned(es@, me),
        all_placed(r@, props, size),
{
    let mut r: Vec<Entity> = Vec::new();
    let mut i: usize = 0;
    while i < es.len()
        invariant
            i <= es.len(),
            all_placed(es@, props, size),
            all_placed(r@, props, size),
            r@ == not_owned(es@.take(i as int), me),
        decreases es.len() - i,
    {
        proof {
            assert(es@.take(i + 1).drop_last() =~= es@.take(i as int));
        }
        let e = es[i];
        if e.player_id != Some(me) {
            r.push(e);
        }
        i = i + 1;
    }
    proof {
        assert(es@.take(es.len() as int) =~= es@);
    }
    r
}

/// The entities of the view whose id the lookup does not know, appended to `es`.
fn append_unindexed(
    es: &mut Vec<Entity>,
    view: &Vec<Entity>,
    index: &HashMap<i32, usize>,
    Ghost(old_es): Ghost<Seq<Entity>>,
    me: i32,
    Ghost(props): Ghost<Seq<EntityProperties>>,
    Ghost(size): Ghost<int>,
)
    requires
        forall|k: i32| #[trigger] index@.contains_key(k) <==> still_indexed(old_es, view@, me, k),
        all_placed(old(es)@, props, size),
        all_placed(view@, props, size),
    ensures
        final(es)@ == old(es)@ + unindexed(view@, old_es, view@, me),
        all_placed(final(es)@, props, size),
{
    let ghost start = es@;
    let mut j: usize = 0;
    while j < view.len()
        invariant
            j <= view.len(),
            all_placed(es@, props, size),
            all_placed(view@, props, size),
            forall|k: i32| #[trigger] index@.contains_key(k) <==> still_indexed(old_es, view@, me, k),
            es@ == start + unindexed(view@.take(j as int), old_es, view@, me),
        decreases view.len() - j,
    {
        proof {
            assert(view@.take(j + 1).drop_last() =~= view@.take(j as int));
        }
        let e = view[j];
        if !index.contains_key(&e.id) {
            es.push(e);
        }
        proof {
            assert(es@ =~= start + unindexed(view@.take(j + 1), old_es, view@, me));
        }
        j = j + 1;
    }
    proof {
        assert(view@.take(view.len() as int) =~= view@);
    }
}

/// A lookup from each id of `es` to the index of the last entity with that id.
fn index_by_id(es: &Vec<Entity>) -> (r: HashMap<i32, usize>)
    ensures
        forall|id: i32| #[trigger] r@.contains_key(id) <==> last_index_of(es@, id) >= 0,
        forall|id: i32| #[trigger] r@.contains_key(id) ==> r@[id] == last_index_of(es@, id),
{
    let mut r: HashMap<i32, usize> = HashMap::new();
    let mut i: usize = 0;
    while i < es.len()
        invariant
            i <= es.len(),
            forall|id: i32| #[trigger] r@.contains_key(id) <==> last_index_of(es@.take(i as int), id) >= 0,
            forall|id: i32| #[trigger] r@.contains_key(id) ==> r@[id] == last_index_of(es@.take(i as int), id),
        decreases es.len() - i,
    {
        proof {
            assert(es@.take(i + 1).drop_last() =~= es@.take(i as int));
        }
        let e = es[i];
        r.insert(e.id, i);
        proof {
            assert forall|id: i32| #[trigger] r@.contains_key(id) <==> last_index_of(es@.take(i + 1), id) >= 0 by {
                lemma_last_index_bounds(es@.take(i as int), id);
            }
        }
        i = i + 1;
    }
    proof {
        assert(es@.take(es.len() as int) =~= es@);
    }
    r
}


/// Whether the map shows every cell of the square of side `side` at the entity's corner as
/// that entity.
fn square_shows_entity(map: &GameMap, e: &Entity, side: i32) -> (r: bool)
    requires
        map.wf(),
        in_i32(e.position.x + side),
        in_i32(e.position.y + side),
    ensures
        r == forall|c: Vec2i|
            #[trigger] rect_between(
                e.position,
                Vec2i { x: (e.position.x + side) as i32, y: (e.position.y + side) as i32 },
            ).contains(c) ==> map.spec_contains(c) && map.tile_at(c) == Tile::Entity(e.id),
{
    let cells = crate::grid::rect_vec(e.position, e.position + Vec2i::both(side));
    let mut i: usize = 0;
    while i < cells.len()
        invariant
            map.wf(),
            in_i32(e.position.x + side),
            in_i32(e.position.y + side),
            cells@ == rect_between(e.position, Vec2i { x: (e.position.x + side) as i32, y: (e.position.y + side) as i32 }),
            i <= cells.len(),
            forall|j: int| 0 <= j < i ==> map.spec_contains(#[trigger] cells@[j]) && map.tile_at(cells@[j]) == Tile::Entity(e.id),
        decreases cells.len() - i,
    {
        let c = cells[i];
        if !map.contains(c) || map.get_tile(c) != Tile::Entity(e.id) {
            proof {
                assert(cells@[i as int] == c);
                assert(cells@.contains(c));
                assert(rect_between(
                    e.position,
                    Vec2i { x: (e.position.x + side) as i32, y: (e.position.y + side) as i32 },
                ).contains(c));
                assert(!(map.spec_contains(c) && map.tile_at(c) == Tile::Entity(e.id)));
            }
            return false;
        }
        i = i + 1;
    }
    proof {
        assert forall|c: Vec2i| #[trigger] cells@.contains(c) implies map.spec_contains(c) && map.tile_at(c) == Tile::Entity(e.id) by {
            let j = choose|j: int| 0 <= j < cells@.len() && cells@[j] == c;
            assert(cells@[j] == c);
        }
    }
    true
}

/// The entities of `es` whose square the map shows as theirs.
fn keep_shown(
    es: &Vec<Entity>,
    map: &GameMap,
    props: &Vec<EntityProperties>,
    Ghost(fog_of_war): Ghost<bool>,
    Ghost(me): Ghost<i32>,
    Ghost(shown): Ghost<Seq<MapEntity>>,
    Ghost(size): Ghost<int>,
) -> (r: Vec<Entity>)
    requires
        map.wf(),
        map.spec_size() == size,
        props.len() == ENTITY_TYPES_COUNT,
        forall|p: Vec2i| map.spec_contains(p) ==> map.tile_at(p) == expected_tile(fog_of_war, me, shown, size, p),
        all_placed(es@, props@, size),
    ensures
        r@ == still_shown(es@, fog_of_war, me, shown, size, props@),
        all_placed(r@, props@, size),
{
    let mut r: Vec<Entity> = Vec::new();
    let mut i: usize = 0;
    while i < es.len()
        invariant
            map.wf(),
            map.spec_size() == size,
            props.len() == ENTITY_TYPES_COUNT,
            forall|p: Vec2i| map.spec_contains(p) ==> map.tile_at(p) == expected_tile(fog_of_war, me, shown, size, p),
            all_placed(es@, props@, size),
            all_placed(r@, props@, size),
            i <= es.len(),
            r@ == still_shown(es@.take(i as int), fog_of_war, me, shown, size, props@),
        decreases es.len() - i,
    {
        proof {
            assert(es@.take(i + 1).drop_last() =~= es@.take(i as int));
        }
        let e = es[i];
        assert(placed(es@[i as int], props@, size));
        let side = props[e.entity_type.index()].size;
        let shows = square_shows_entity(map, &e, side);
        proof {
            let cells = rect_between(e.position, Vec2i { x: (e.position.x + side) as i32, y: (e.position.y + side) as i32 });
            assert(shows == square_shown(fog_of_war, me, shown, size, props@, e)) by {
                assert forall|c: Vec2i| #[trigger] cells.contains(c) implies (map.spec_contains(c) && map.tile_at(c)
                    == Tile::Entity(e.id)) == (in_map(size, c) && expected_tile(fog_of_war, me, shown, size, c)
                    == Tile::Entity(e.id)) by {}
            }
        }
        if shows {
            r.push(e);
        }
        i = i + 1;
    }
    proof {
        assert(es@.take(es.len() as int) =~= es@);
    }
    r
}

/// How many entities of each kind belong to `me`.
fn count_kinds(es: &Vec<Entity>, me: i32) -> (r: Vec<usize>)
    ensures
        r.len() == ENTITY_TYPES_COUNT,
        forall|k: int| 0 <= k < ENTITY_TYPES_COUNT ==> #[trigger] r@[k] == kind_count(es@, me, k),
{
    let mut counts: Vec<usize> = Vec::new();
    let mut k: usize = 0;
    while k < ENTITY_TYPES_COUNT
        invariant
            k <= ENTITY_TYPES_COUNT,
            counts.len() == k,
            forall|j: int| 0 <= j < k ==> #[trigger] counts@[j] == 0,
        decreases ENTITY_TYPES_COUNT - k,
    {
        counts.push(0);
        k = k + 1;
    }
    let mut i: usize = 0;
    while i < es.len()
        invariant
            i <= es.len(),
            counts.len() == ENTITY_TYPES_COUNT,
            forall|j: int| 0 <= j < ENTITY_TYPES_COUNT ==> #[trigger] counts@[j] == kind_count(es@.take(i as int), me, j),
            forall|j: int| 0 <= j < ENTITY_TYPES_COUNT ==> #[trigger] counts@[j] <= i,
        decreases es.len() - i,
    {
        proof {
            assert(es@.take(i + 1).drop_last() =~= es@.take(i as int));
        }
        let e = es[i];
        if e.player_id == Some(me) {
            let t = e.entity_type.index();
            let c = counts[t];
            counts.set(t, c + 1);
        }
        i = i + 1;
    }
    proof {
        assert(es@.take(es.len() as int) =~= es@);
    }
    counts
}

/// The population the entities of `me` use.
pub open spec fn use_sum(es: Seq<Entity>, me: i32, props: Seq<EntityProperties>) -> int
    decreases es.len(),
{
    if es.len() == 0 {
        0
    } else {
        use_sum(es.drop_last(), me, props) + if owned_by(es.last(), me) {
            props[spec_type_index(es.last().entity_type)].population_use as int
        } else {
            0
        }
    }
}

/// The population the entities of `me` provide.
pub open spec fn provide_sum(es: Seq<Entity>, me: i32, props: Seq<EntityProperties>) -> int
    decreases es.len(),
{
    if es.len() == 0 {
        0
    } else {
        provide_sum(es.drop_last(), me, props) + if owned_by(es.last(), me) {
            props[spec_type_index(es.last().entity_type)].population_provide as int
        } else {
            0
        }
    }
}

/// Whether both population sums can be taken in order without overflow.
pub open spec fn population_fits(es: Seq<Entity>, me: i32, props: Seq<EntityProperties>) -> bool {
    &&& forall|i: int| 0 <= i <= es.len() ==> in_i32(#[trigger] use_sum(es.take(i), me, props))
    &&& forall|i: int| 0 <= i <= es.len() ==> in_i32(#[trigger] provide_sum(es.take(i), me, props))
}

/// The population the entities of `me` use and provide.
fn population_sums(es: &Vec<Entity>, me: i32, props: &Vec<EntityProperties>) -> (r: (i32, i32))
    requires
        props.len() == ENTITY_TYPES_COUNT,
        population_fits(es@, me, props@),
    ensures
        r.0 == use_sum(es@, me, props@),
        r.1 == provide_sum(es@, me, props@),
{
    let mut used: i32 = 0;
    let mut provided: i32 = 0;
    let mut i: usize = 0;
    while i < es.len()
        invariant
            props.len() == ENTITY_TYPES_COUNT,
            population_fits(es@, me, props@),
            i <= es.len(),
            used == use_sum(es@.take(i as int), me, props@),
            provided == provide_sum(es@.take(i as int), me, props@),
        decreases es.len() - i,
    {
        proof {
            assert(es@.take(i + 1).drop_last() =~= es@.take(i as int));
            assert(in_i32(use_sum(es@.take(i + 1), me, props@)));
            assert(in_i32(provide_sum(es@.take(i + 1), me, props@)));
        }
        let e = es[i];
        if e.player_id == Some(me) {
            let p = &props[e.entity_type.index()];
            used = used + p.population_use;
            provided = provided + p.population_provide;
        }
        i = i + 1;
    }
    proof {
        assert(es@.take(es.len() as int) =~= es@);
    }
    (used, provided)
}

/// The damage an entity of a kind deals, 0 for a kind that does not attack.
pub open spec fn attack_damage(p: EntityProperties) -> int {
    match p.attack {
        Some(a) => a.damage as int,
        None => 0,
    }
}

/// The power of player `pid`: the health times the damage of each of its entities, summed.
pub open spec fn power_of(es: Seq<Entity>, pid: i32, props: Seq<EntityProperties>) -> int
    decreases es.len(),
{
    if es.len() == 0 {
        0
    } else {
        power_of(es.drop_last(), pid, props) + if es.last().player_id == Some(pid) {
            es.last().health * attack_damage(props[spec_type_index(es.last().entity_type)])
        } else {
            0
        }
    }
}

/// Whether the power of player `pid` can be taken in order without overflow.
pub open spec fn power_fits(es: Seq<Entity>, pid: i32, props: Seq<EntityProperties>) -> bool {
    &&& forall|i: int|
        0 <= i < es.len() && #[trigger] es[i].player_id == Some(pid) ==> in_i32(
            es[i].health * attack_damage(props[spec_type_index(es[i].entity_type)]),
        )
    &&& forall|i: int| 0 <= i <= es.len() ==> in_i32(#[trigger] power_of(es.take(i), pid, props))
}

fn power_of_player(es: &Vec<Entity>, pid: i32, props: &Vec<EntityProperties>) -> (r: i32)
    requires
        props.len() == ENTITY_TYPES_COUNT,
        power_fits(es@, pid, props@),
    ensures
        r == power_of(es@, pid, props@),
{
    let mut total: i32 = 0;
    let mut i: usize = 0;
    while i < es.len()
        invariant
            props.len() == ENTITY_TYPES_COUNT,
            power_fits(es@, pid, props@),
            i <= es.len(),
            total == power_of(es@.take(i as int), pid, props@),
        decreases es.len() - i,
    {
        proof {
            assert(es@.take(i + 1).drop_last() =~= es@.take(i as int));
            assert(in_i32(power_of(es@.take(i + 1), pid, props@)));
        }
        let e = es[i];
        if e.player_id == Some(pid) {
            assert(es@[i as int].player_id == Some(pid));
            let damage: i32 = match props[e.entity_type.index()].attack {
                Some(a) => a.damage,
                None => 0,
            };
            total = total + e.health * damage;
        }
        i = i + 1;
    }
    proof {
        assert(es@.take(es.len() as int) =~= es@);
    }
    total
}

/// Whether an entity threatens cells: it is no builder, does not belong to `me`, and attacks.
pub open spec fn attacker(e: Entity, me: i32, props: Seq<EntityProperties>) -> bool {
    e.entity_type != EntityType::BuilderUnit && !owned_by(e, me) && props[spec_type_index(e.entity_type)].attack is Some
}

/// How far an attacker threatens: its attack range and three more cells.
pub open spec fn reach_of(e: Entity, props: Seq<EntityProperties>) -> int {
    props[spec_type_index(e.entity_type)].attack.unwrap().attack_range + 3
}

/// The cells of a map of side `size` that an attacker threatens.
pub open spec fn threat_cells(e: Entity, props: Seq<EntityProperties>, size: int) -> Seq<Vec2i> {
    visit_range_cells(e.position, props[spec_type_index(e.entity_type)].size as int, reach_of(e, props), map_bounds(size))
}

/// Whether the cells an attacker threatens can be computed without overflow.
pub open spec fn reach_fits(e: Entity, props: Seq<EntityProperties>) -> bool {
    let s = props[spec_type_index(e.entity_type)].size;
    let r = reach_of(e, props);
    &&& in_i32(r)
    &&& in_i32(e.position.x - r)
    &&& in_i32(e.position.x + s)
    &&& in_i32(e.position.x + s + r)
    &&& in_i32(e.position.y - r)
    &&& in_i32(e.position.y + s)
    &&& in_i32(e.position.y + s + r)
}

/// Whether some attacker among `es` threatens the cell `p`.
pub open spec fn threatened(es: Seq<Entity>, me: i32, props: Seq<EntityProperties>, size: int, p: Vec2i) -> bool {
    exists|i: int| 0 <= i < es.len() && #[trigger] attacker(es[i], me, props) && threat_cells(es[i], props, size).contains(p)
}

/// Flags each cell of the map that an attacker among `es` threatens, and no other.
fn mark_attacked(attacked: &mut Vec<bool>, es: &Vec<Entity>, me: i32, props: &Vec<EntityProperties>, size: i32)
    requires
        0 <= size,
        size * size <= usize::MAX,
        old(attacked).len() == size * size,
        props.len() == ENTITY_TYPES_COUNT,
        forall|i: int| 0 <= i < es.len() && #[trigger] attacker(es@[i], me, props@) ==> reach_fits(es@[i], props@),
    ensures
        final(attacked).len() == size * size,
        forall|p: Vec2i| #[trigger] in_map(size as int, p) ==> final(attacked)@[p.x + p.y * size] == threatened(es@, me, props@, size as int, p),
{
    let n = attacked.len();
    let mut a: usize = 0;
    while a < n
        invariant
            n == attacked.len(),
            a <= n,
            forall|j: int| 0 <= j < a ==> !#[trigger] attacked@[j],
        decreases n - a,
    {
        attacked.set(a, false);
        a = a + 1;
    }
    let bounds = Rect::new(Vec2i::zero(), Vec2i::both(size));
    assert(bounds == map_bounds(size as int));
    proof {
        assert forall|p: Vec2i| #[trigger] in_map(size as int, p) implies attacked@[p.x + p.y * size] == threatened(
            es@.take(0),
            me,
            props@,
            size as int,
            p,
        ) by {
            crate::grid::lemma_cell_index_in_range(size as int, p);
        }
    }
    let mut i: usize = 0;
    while i < es.len()
        invariant
            0 <= size,
            size * size <= usize::MAX,
            attacked.len() == size * size,
            props.len() == ENTITY_TYPES_COUNT,
            bounds == map_bounds(size as int),
            forall|j: int| 0 <= j < es.len() && #[trigger] attacker(es@[j], me, props@) ==> reach_fits(es@[j], props@),
            i <= es.len(),
            forall|p: Vec2i| #[trigger] in_map(size as int, p) ==> attacked@[p.x + p.y * size] == threatened(es@.take(i as int), me, props@, size as int, p),
        decreases es.len() - i,
    {
        let e = es[i];
        let ghost t0 = es@.take(i as int);
        let ghost t1 = es@.take(i + 1);
        proof {
            assert(t1[i as int] == e);
            assert forall|p: Vec2i| threatened(t1, me, props@, size as int, p) <==> (threatened(t0, me, props@, size as int, p)
                || (attacker(e, me, props@) && threat_cells(e, props@, size as int).contains(p))) by {
                if threatened(t1, me, props@, size as int, p) {
                    let w = choose|w: int| 0 <= w < t1.len() && #[trigger] attacker(t1[w], me, props@) && threat_cells(t1[w], props@, size as int).contains(p);
                    if w < i {
                        assert(t0[w] == t1[w]);
                    }
                }
                if threatened(t0, me, props@, size as int, p) {
                    let w = choose|w: int| 0 <= w < t0.len() && #[trigger] attacker(t0[w], me, props@) && threat_cells(t0[w], props@, size as int).contains(p);
                    assert(t1[w] == t0[w]);
                }
            }
        }
        let attack = props[e.entity_type.index()].attack;
        if e.entity_type != EntityType::BuilderUnit && e.player_id != Some(me) && attack.is_some() {
            assert(attacker(es@[i as int], me, props@));
            let side = props[e.entity_type.index()].size;
            let range = attack.unwrap().attack_range + 3;
            let cells = crate::grid::visit_range(e.position, side, range, &bounds);
            let ghost before = attacked@;
            let mut k: usize = 0;
            while k < cells.len()
                invariant
                    0 <= size,
                    size * size <= usize::MAX,
                    attacked.len() == size * size,
                    bounds == map_bounds(size as int),
                    cells@ == visit_range_cells(e.position, side as int, range as int, bounds),
                    k <= cells.len(),
                    forall|p: Vec2i| #[trigger] in_map(size as int, p) ==> attacked@[p.x + p.y * size] == (before[p.x + p.y * size]
                        || cells@.take(k as int).contains(p)),
                decreases cells.len() - k,
            {
                let c = cells[k];
                proof {
                    assert(cells@.contains(c) && cells@[k as int] == c);
                    crate::grid::lemma_visit_range_within(e.position, side as int, range as int, bounds, c);
                    crate::grid::lemma_cell_index_in_range(size as int, c);
                }
                let index = crate::grid::position_to_index(c, size as usize);
                attacked.set(index, true);
                proof {
                    assert forall|p: Vec2i| #[trigger] in_map(size as int, p) implies attacked@[p.x + p.y * size] == (before[p.x + p.y
                        * size] || cells@.take(k + 1).contains(p)) by {
                        crate::grid::lemma_cell_index_in_range(size as int, p);
                        if p.x + p.y * size == index {
                            crate::grid::lemma_cell_index_injective(size as int, p, c);
                        }
                        assert(cells@.take(k + 1) =~= cells@.take(k as int).push(c));
                        if cells@.take(k + 1).contains(p) && p != c {
                            let w = choose|w: int| 0 <= w < k + 1 && #[trigger] cells@.take(k + 1)[w] == p;
                            assert(cells@.take(k as int)[w] == p);
                        }
                        if cells@.take(k as int).contains(p) {
                            let w = choose|w: int| 0 <= w < k && #[trigger] cells@.take(k as int)[w] == p;
                            assert(cells@.take(k + 1)[w] == p);
                        }
                        if p == c {
                            assert(cells@.take(k + 1)[k as int] == p);
                        }
                    }
                }
                k = k + 1;
            }
            proof {
                assert(cells@.take(cells.len() as int) =~= cells@);
            }
        }
        i = i + 1;
    }
    proof {
        assert(es@.take(es.len() as int) =~= es@);
    }
}


/// How the map sees each entity of `es`.
fn map_entities(es: &Vec<Entity>, props: &Vec<EntityProperties>) -> (r: Vec<MapEntity>)
    requires
        props.len() == ENTITY_TYPES_COUNT,
    ensures
        r@ == map_entities_of(es@, props@),
{
    let mut r: Vec<MapEntity> = Vec::new();
    let mut i: usize = 0;
    while i < es.len()
        invariant
            props.len() == ENTITY_TYPES_COUNT,
            i <= es.len(),
            r.len() == i,
            forall|j: int| 0 <= j < i ==> #[trigger] r@[j] == map_entity_of(es@[j], props@),
        decreases es.len() - i,
    {
        let e = es[i];
        let p = &props[e.entity_type.index()];
        r.push(MapEntity { id: e.id, player_id: e.player_id, position: e.position, size: p.size, sight_range: p.sight_range });
        i = i + 1;
    }
    proof {
        assert(r@ =~= map_entities_of(es@, props@));
    }
    r
}

/// Sets the power of each player, by position, and leaves the rest of the table as it was.
fn compute_powers(power: &mut Vec<i32>, players: &Vec<Player>, es: &Vec<Entity>, props: &Vec<EntityProperties>)
    requires
        props.len() == ENTITY_TYPES_COUNT,
        players.len() <= old(power).len(),
        forall|j: int| 0 <= j < players.len() ==> power_fits(es@, #[trigger] players@[j].id, props@),
    ensures
        final(power).len() == old(power).len(),
        forall|j: int| 0 <= j < players.len() ==> #[trigger] final(power)@[j] == power_of(es@, players@[j].id, props@),
        forall|j: int| players.len() <= j < final(power).len() ==> #[trigger] final(power)@[j] == old(power)@[j],
{
    let ghost start = power@;
    let mut i: usize = 0;
    while i < players.len()
        invariant
            props.len() == ENTITY_TYPES_COUNT,
            players.len() <= power.len(),
            power.len() == start.len(),
            forall|j: int| 0 <= j < players.len() ==> power_fits(es@, #[trigger] players@[j].id, props@),
            i <= players.len(),
            forall|j: int| 0 <= j < i ==> #[trigger] power@[j] == power_of(es@, players@[j].id, props@),
            forall|j: int| i <= j < power.len() ==> #[trigger] power@[j] == start[j],
        decreases players.len() - i,
    {
        let pid = players[i].id;
        let v = power_of_player(es, pid, props);
        power.set(i, v);
        i = i + 1;
    }
}

impl World {
    /// The entities the world knows after an update with the view: those of the view, or under
    /// fog of war those that `cached_next` keeps.
    pub open spec fn next_entities(self, view: PlayerView) -> Seq<Entity> {
        if view.fog_of_war {
            cached_next(self.spec_entities(), view, self.spec_my_id(), self.spec_map_size() as int, self.spec_properties())
        } else {
            view.entities@
        }
    }

    /// Whether an update with the view can be carried out: the view's entities lie on the map,
    /// the players fit the power table, and the sums, products and ranges the update takes over
    /// the next entities do not overflow.
    pub open spec fn update_fits(self, view: PlayerView) -> bool {
        let next = self.next_entities(view);
        let props = self.spec_properties();
        &&& view.players.len() <= self.spec_power().len()
        &&& all_placed(view.entities@, props, self.spec_map_size() as int)
        &&& population_fits(next, self.spec_my_id(), props)
        &&& forall|i: int| 0 <= i < view.players.len() ==> power_fits(next, #[trigger] view.players@[i].id, props)
        &&& forall|i: int| 0 <= i < next.len() && #[trigger] attacker(next[i], self.spec_my_id(), props) ==> reach_fits(next[i], props)
    }

    /// Takes in the view of a new tick: the players, the map redrawn from the entities seen, the
    /// entities known (under fog of war, those of the last tick that the map still shows stay
    /// known), the counts and population of the player's entities, the power of each player,
    /// and the cells that opponents threaten. What tasks allocated last tick is freed; what they
    /// requested stays requested.
    pub fn update(&mut self, player_view: &PlayerView)
        requires
            old(self).wf(),
            old(self).update_fits(*player_view),
        ensures
            final(self).wf(),
            final(self).spec_my_id() == old(self).spec_my_id(),
            final(self).spec_map_size() == old(self).spec_map_size(),
            final(self).spec_fog_of_war() == old(self).spec_fog_of_war(),
            final(self).spec_max_tick_count() == old(self).spec_max_tick_count(),
            final(self).spec_max_pathfind_nodes() == old(self).spec_max_pathfind_nodes(),
            final(self).spec_properties() == old(self).spec_properties(),
            final(self).spec_start_position() == old(self).spec_start_position(),
            final(self).spec_grow_direction() == old(self).spec_grow_direction(),
            final(self).spec_requested() == old(self).spec_requested(),
            final(self).spec_current_tick() == player_view.current_tick,
            final(self).spec_players() == player_view.players@,
            final(self).spec_entities() == old(self).next_entities(*player_view),
            final(self).spec_map().spec_size() == old(self).spec_map().spec_size(),
            forall|p: Vec2i|
                final(self).spec_map().spec_contains(p) ==> final(self).spec_map().tile_at(p) == expected_tile(
                    player_view.fog_of_war,
                    player_view.my_id,
                    map_entities_of(player_view.entities@, old(self).spec_properties()),
                    old(self).spec_map_size() as int,
                    p,
                ),
            forall|p: Vec2i|
                final(self).spec_map().spec_contains(p) ==> final(self).spec_map().locked_at(p) == old(self).spec_map().locked_at(p),
            final(self).spec_population_use() == use_sum(final(self).spec_entities(), final(self).spec_my_id(), final(self).spec_properties()),
            final(self).spec_population_provide() == provide_sum(final(self).spec_entities(), final(self).spec_my_id(), final(self).spec_properties()),
            final(self).spec_allocated() == 0,
            final(self).spec_allocated_population() == 0,
            final(self).spec_power().len() == old(self).spec_power().len(),
            forall|i: int|
                0 <= i < player_view.players.len() ==> #[trigger] final(self).spec_power()[i] == power_of(
                    final(self).spec_entities(),
                    player_view.players@[i].id,
                    final(self).spec_properties(),
                ),
            forall|i: int|
                player_view.players.len() <= i < final(self).spec_power().len() ==> #[trigger] final(self).spec_power()[i]
                    == old(self).spec_power()[i],
            forall|p: Vec2i|
                #[trigger] in_map(final(self).spec_map_size() as int, p) ==> final(self).spec_attacked()[p.x + p.y
                    * final(self).spec_map_size()] == threatened(
                    final(self).spec_entities(),
                    final(self).spec_my_id(),
                    final(self).spec_properties(),
                    final(self).spec_map_size() as int,
                    p,
                ),
    {
        let ghost old_entities = self.entities@;
        let ghost props = self.entity_properties@;
        let ghost size = self.map_size as int;
        self.current_tick = player_view.current_tick;
        self.players = crate::entity_simulator::copied(&player_view.players);
        let shown = map_entities(&player_view.entities, &self.entity_properties);
        proof {
            assert forall|i: int| 0 <= i < shown.len() implies crate::map::valid_map_entity(
                #[trigger] shown@[i],
                self.map.spec_size(),
            ) by {
                assert(placed(player_view.entities@[i], props, size));
            }
        }
        self.map.update(player_view.fog_of_war, player_view.my_id, &shown);
        if player_view.fog_of_war {
            refresh_cached(&mut self.entities, &self.entities_by_id, &player_view.entities);
            proof {
                assert forall|i: int| 0 <= i < self.entities@.len() implies placed(#[trigger] self.entities@[i], props, size) by {
                    lemma_last_index_bounds(player_view.entities@, old_entities[i].id);
                    assert(placed(old_entities[i], props, size));
                    if last_index_of(player_view.entities@, old_entities[i].id) >= 0 {
                        assert(placed(
                            player_view.entities@[last_index_of(player_view.entities@, old_entities[i].id)],
                            props,
                            size,
                        ));
                    }
                }
            }
            drop_owned_keys(&mut self.entities_by_id, &self.entities, self.my_id);
            let unowned = keep_not_owned(&self.entities, player_view.my_id, Ghost(props), Ghost(size));
            let mut kept = keep_shown(
                &unowned,
                &self.map,
                &self.entity_properties,
                Ghost(player_view.fog_of_war),
                Ghost(player_view.my_id),
                Ghost(shown@),
                Ghost(size),
            );
            append_unindexed(
                &mut kept,
                &player_view.entities,
                &self.entities_by_id,
                Ghost(old_entities),
                self.my_id,
                Ghost(props),
                Ghost(size),
            );
            self.entities = kept;
        } else {
            self.entities = crate::entity_simulator::copied(&player_view.entities);
        }
        self.entities_by_id = index_by_id(&self.entities);
        self.my_entities_count = count_kinds(&self.entities, self.my_id);
        let (used, provided) = population_sums(&self.entities, self.my_id, &self.entity_properties);
        self.population_use = used;
        self.population_provide = provided;
        self.allocated_resource = 0;
        self.allocated_population = 0;
        compute_powers(&mut self.player_power, &self.players, &self.entities, &self.entity_properties);
        mark_attacked(&mut self.is_attacked_by_opponent, &self.entities, self.my_id, &self.entity_properties, self.map_size);
    }
}


/// Whether a cell around a planned building leaves room: unlocked, and empty, or for a house
/// also beyond the map.
pub open spec fn border_clear(map: GameMap, c: Vec2i, house: bool) -> bool {
    !map.view_locked(c) && (map.view_tile(c) == Tile::Empty || (house && map.view_tile(c) == Tile::Outside))
}

/// Whether a building of side `size` fits with its corner at `p`: the corner and the cell past
/// the opposite corner are on the map, its square is unlocked and empty, and the ring around it
/// leaves room.
pub open spec fn fits_at(map: GameMap, p: Vec2i, size: int, house: bool) -> bool {
    let q = Vec2i { x: (p.x + size) as i32, y: (p.y + size) as i32 };
    let lo = Vec2i { x: (p.x - 1) as i32, y: (p.y - 1) as i32 };
    let hi = Vec2i { x: (p.x + size + 1) as i32, y: (p.y + size + 1) as i32 };
    &&& map.spec_contains(p)
    &&& map.spec_contains(q)
    &&& forall|c: Vec2i| #[trigger] rect_between(p, q).contains(c) ==> !map.view_locked(c) && map.view_tile(c) == Tile::Empty
    &&& forall|c: Vec2i| #[trigger] rect_border_cells(lo, hi).contains(c) ==> border_clear(map, c, house)
}

/// Whether the cell `p` of map `m` is locked once each square of side `size` with its corner
/// at the first of a pair of `ops` is in turn locked (second `true`) or unlocked (`false`).
pub open spec fn locks_after(m: GameMap, ops: Seq<(Vec2i, bool)>, size: int, p: Vec2i) -> bool
    decreases ops.len(),
{
    if ops.len() == 0 {
        m.locked_at(p)
    } else if GameMap::in_square(ops.last().0, size, p) {
        ops.last().1
    } else {
        locks_after(m, ops.drop_last(), size, p)
    }
}

/// One more lock or unlock changes the cells of its square only.
pub proof fn lemma_locks_after_push(m: GameMap, ops: Seq<(Vec2i, bool)>, size: int)
    ensures
        forall|x: (Vec2i, bool), p: Vec2i|
            #[trigger] locks_after(m, ops.push(x), size, p) == if GameMap::in_square(x.0, size, p) {
                x.1
            } else {
                locks_after(m, ops, size, p)
            },
{
    assert forall|x: (Vec2i, bool), p: Vec2i|
        #[trigger] locks_after(m, ops.push(x), size, p) == if GameMap::in_square(x.0, size, p) {
            x.1
        } else {
            locks_after(m, ops, size, p)
        } by {
        assert(ops.push(x).drop_last() =~= ops);
    }
}

/// Whether `m2` is `m` with its locks as `ops` leave them.
pub open spec fn relocked(m2: GameMap, m: GameMap, ops: Seq<(Vec2i, bool)>, size: int) -> bool {
    &&& m2.spec_size() == m.spec_size()
    &&& forall|p: Vec2i|
        m.spec_contains(p) ==> m2.tile_at(p) == m.tile_at(p) && m2.locked_at(p) == locks_after(m, ops, size, p)
}

/// The map `m` with its locks as `ops` leave them.
pub open spec fn map_after(m: GameMap, ops: Seq<(Vec2i, bool)>, size: int) -> GameMap {
    choose|m2: GameMap| relocked(m2, m, ops, size)
}

/// The place found for a building depends on the map only through its size, tiles and locks.
pub proof fn lemma_first_fit_congruent(m1: GameMap, m2: GameMap, cands: Seq<Vec2i>, size: int, house: bool)
    requires
        m1.spec_size() == m2.spec_size(),
        forall|p: Vec2i| m1.spec_contains(p) ==> m1.tile_at(p) == m2.tile_at(p) && m1.locked_at(p) == m2.locked_at(p),
    ensures
        first_fit(m1, cands, size, house) == first_fit(m2, cands, size, house),
    decreases cands.len(),
{
    if cands.len() > 0 {
        lemma_first_fit_congruent(m1, m2, cands.drop_last(), size, house);
        assert forall|c: Vec2i| #[trigger] m1.view_locked(c) == m2.view_locked(c) && m1.view_tile(c) == m2.view_tile(c) by {}
        assert(fits_at(m1, cands.last(), size, house) == fits_at(m2, cands.last(), size, house));
    }
}

/// A place found for a building is free: every cell of the square the building would cover is on
/// the map, empty, and not locked for another planned building.
pub proof fn lemma_free_space_is_free(map: GameMap, cands: Seq<Vec2i>, size: int, house: bool)
    ensures
        first_fit(map, cands, size, house) matches Some(p) ==> forall|c: Vec2i|
            #[trigger] rect_between(p, Vec2i { x: (p.x + size) as i32, y: (p.y + size) as i32 }).contains(c)
                ==> !map.view_locked(c) && map.view_tile(c) == Tile::Empty,
{
    lemma_first_fit_member(map, cands, size, house);
}

proof fn lemma_first_fit_member(map: GameMap, cands: Seq<Vec2i>, size: int, house: bool)
    ensures
        first_fit(map, cands, size, house) matches Some(p) ==> cands.contains(p) && fits_at(map, p, size, house),
    decreases cands.len(),
{
    if cands.len() > 0 {
        lemma_first_fit_member(map, cands.drop_last(), size, house);
        if let Some(p) = first_fit(map, cands.drop_last(), size, house) {
            let k = choose|k: int| 0 <= k < cands.len() - 1 && cands.drop_last()[k] == p;
            assert(cands[k] == p);
        } else {
            assert(cands[cands.len() - 1] == cands.last());
        }
    }
}

proof fn lemma_rings_within(start: Vec2i, limit: int, m: int, c: Vec2i)
    requires
        rings(start, limit).contains(c),
        limit <= m,
        in_i32(start.x - m),
        in_i32(start.y - m),
        in_i32(start.x + m + 1),
        in_i32(start.y + m + 1),
    ensures
        start.x - m <= c.x <= start.x + m,
        start.y - m <= c.y <= start.y + m,
    decreases limit,
{
    if limit > 1 {
        let a = rings(start, limit - 1);
        let b = ring(start, limit - 1);
        assert(rings(start, limit) == a + b);
        let k = choose|k: int| 0 <= k < (a + b).len() && (a + b)[k] == c;
        if k < a.len() {
            assert(a[k] == c);
            lemma_rings_within(start, limit - 1, m, c);
        } else {
            assert(b[k - a.len()] == c);
            crate::grid::lemma_rect_border_cells_within(
                Vec2i { x: (start.x - (limit - 1)) as i32, y: (start.y - (limit - 1)) as i32 },
                Vec2i { x: (start.x + (limit - 1) + 1) as i32, y: (start.y + (limit - 1) + 1) as i32 },
                c,
            );
        }
    }
}

/// A place found for a building, on a map the size of the world's, lies on that map and its
/// far corner fits in an `i32`.
pub proof fn lemma_free_space_bounds(w: World, map: GameMap, t: EntityType)
    requires
        w.space_fits(t),
        map.spec_size() == w.spec_map().spec_size(),
    ensures
        first_fit(
            map,
            seq![w.space_start(t)] + rings(w.space_start(t), w.spec_protected_radius()),
            w.spec_properties()[spec_type_index(t)].size as int,
            t == EntityType::House,
        ) matches Some(p) ==> {
            &&& map.spec_contains(p)
            &&& in_i32(p.x + w.spec_properties()[spec_type_index(t)].size)
            &&& in_i32(p.y + w.spec_properties()[spec_type_index(t)].size)
        },
{
    let s = w.space_start(t);
    let size = w.spec_properties()[spec_type_index(t)].size as int;
    let house = t == EntityType::House;
    let cands = seq![s] + rings(s, w.spec_protected_radius());
    let m = if w.spec_protected_radius() > 1 { w.spec_protected_radius() } else { 1 };
    lemma_first_fit_member(map, cands, size, house);
    if let Some(p) = first_fit(map, cands, size, house) {
        let k = choose|k: int| 0 <= k < cands.len() && cands[k] == p;
        if k > 0 {
            let r = rings(s, w.spec_protected_radius());
            assert(r[k - 1] == p);
            assert(r.contains(p));
            lemma_rings_within(s, w.spec_protected_radius(), m, p);
        } else {
            assert(p == s);
        }
    }
}

/// The cells at distance `radius` around `start` in the order a border search visits them.
pub open spec fn ring(start: Vec2i, radius: int) -> Seq<Vec2i> {
    rect_border_cells(
        Vec2i { x: (start.x - radius) as i32, y: (start.y - radius) as i32 },
        Vec2i { x: (start.x + radius + 1) as i32, y: (start.y + radius + 1) as i32 },
    )
}

/// The rings of radius 1 up to, not including, `limit`, one after another.
pub open spec fn rings(start: Vec2i, limit: int) -> Seq<Vec2i>
    decreases limit,
{
    if limit <= 1 {
        Seq::empty()
    } else {
        rings(start, limit - 1) + ring(start, limit - 1)
    }
}

/// The first cell of `cands` where a building fits, if any.
pub open spec fn first_fit(map: GameMap, cands: Seq<Vec2i>, size: int, house: bool) -> Option<Vec2i>
    decreases cands.len(),
{
    if cands.len() == 0 {
        None
    } else {
        let r = first_fit(map, cands.drop_last(), size, house);
        if r is Some {
            r
        } else if fits_at(map, cands.last(), size, house) {
            Some(cands.last())
        } else {
            None
        }
    }
}

proof fn lemma_first_fit_concat(map: GameMap, a: Seq<Vec2i>, b: Seq<Vec2i>, size: int, house: bool)
    ensures
        first_fit(map, a + b, size, house) == if first_fit(map, a, size, house) is Some {
            first_fit(map, a, size, house)
        } else {
            first_fit(map, b, size, house)
        },
    decreases b.len(),
{
    if b.len() == 0 {
        assert(a + b =~= a);
    } else {
        assert((a + b).drop_last() =~= a + b.drop_last());
        lemma_first_fit_concat(map, a, b.drop_last(), size, house);
    }
}

impl World {
    /// Where a search for room for a building of kind `t` starts: the corner of the map on the
    /// start's side for a house, the start itself for other kinds.
    pub open spec fn space_start(self, t: EntityType) -> Vec2i {
        let s = self.spec_start_position();
        let m = self.spec_map_size() as int;
        if t == EntityType::House {
            Vec2i {
                x: if s.x < trunc_div(m, 2) { 0 } else { (m - 1) as i32 },
                y: if s.y < trunc_div(m, 2) { 0 } else { (m - 1) as i32 },
            }
        } else {
            s
        }
    }

    /// Whether the search for room for kind `t` stays within the range of `i32`.
    pub open spec fn space_fits(self, t: EntityType) -> bool {
        let s = self.space_start(t);
        let size = self.spec_properties()[spec_type_index(t)].size as int;
        let m = if self.spec_protected_radius() > 1 { self.spec_protected_radius() } else { 1 };
        &&& self.radius_defined()
        &&& in_i32(2 * m + 1)
        &&& in_i32(s.x - m - 1)
        &&& in_i32(s.y - m - 1)
        &&& in_i32(s.x + m + size + 1)
        &&& in_i32(s.y + m + size + 1)
        &&& in_i32(s.x - m + size)
        &&& in_i32(s.y - m + size)
        &&& in_i32(s.x + m + 1)
        &&& in_i32(s.y + m + 1)
    }

    /// Whether a building of side `size` fits with its corner at `position`.
    fn fits_space(&self, position: Vec2i, size: i32, house: bool) -> (r: bool)
        requires
            self.wf(),
            in_i32(position.x - 1),
            in_i32(position.y - 1),
            in_i32(position.x + size),
            in_i32(position.y + size),
            in_i32(position.x + size + 1),
            in_i32(position.y + size + 1),
        ensures
            r == fits_at(self.spec_map(), position, size as int, house),
    {
        let far = position + Vec2i::both(size);
        if !self.map.contains(position) || !self.map.contains(far) {
            return false;
        }
        let inside = crate::grid::rect_vec(position, far);
        let mut i: usize = 0;
        while i < inside.len()
            invariant
                self.wf(),
                far == (Vec2i { x: (position.x + size) as i32, y: (position.y + size) as i32 }),
                inside@ == rect_between(position, far),
                i <= inside.len(),
                forall|j: int| 0 <= j < i ==> !self.map.view_locked(#[trigger] inside@[j]) && self.map.view_tile(inside@[j])
                    == Tile::Empty,
            decreases inside.len() - i,
        {
            let c = inside[i];
            let blocked = if self.map.contains(c) {
                self.map.is_tile_locked(c) || self.map.get_tile(c) != Tile::Empty
            } else {
                true
            };
            if blocked {
                proof {
                    assert(inside@[i as int] == c);
                    assert(inside@.contains(c));
                }
                return false;
            }
            i = i + 1;
        }
        let lo = Vec2i::new(position.x - 1, position.y - 1);
        let hi = Vec2i::new(position.x + size + 1, position.y + size + 1);
        let around = crate::grid::border_vec(lo, hi);
        let mut k: usize = 0;
        while k < around.len()
            invariant
                self.wf(),
                lo == (Vec2i { x: (position.x - 1) as i32, y: (position.y - 1) as i32 }),
                hi == (Vec2i { x: (position.x + size + 1) as i32, y: (position.y + size + 1) as i32 }),
                around@ == rect_border_cells(lo, hi),
                k <= around.len(),
                forall|j: int| 0 <= j < k ==> border_clear(self.map, #[trigger] around@[j], house),
            decreases around.len() - k,
        {
            let c = around[k];
            let (tile, locked) = if self.map.contains(c) {
                (self.map.get_tile(c), self.map.is_tile_locked(c))
            } else {
                (Tile::Outside, false)
            };
            let bad = locked || (!house && tile != Tile::Empty) || (house && tile != Tile::Empty && tile != Tile::Outside);
            if bad {
                proof {
                    assert(around@[k as int] == c);
                    assert(around@.contains(c));
                }
                return false;
            }
            k = k + 1;
        }
        proof {
            assert forall|c: Vec2i| #[trigger] inside@.contains(c) implies !self.map.view_locked(c) && self.map.view_tile(c)
                == Tile::Empty by {
                let j = choose|j: int| 0 <= j < inside@.len() && inside@[j] == c;
                assert(inside@[j] == c);
            }
            assert forall|c: Vec2i| #[trigger] around@.contains(c) implies border_clear(self.map, c, house) by {
                let j = choose|j: int| 0 <= j < around@.len() && around@[j] == c;
                assert(around@[j] == c);
            }
        }
        true
    }

    /// The first place where a building of kind `entity_type` fits: the search start, then ring
    /// by ring around it up to the protected radius.
    pub fn find_free_space_for(&self, entity_type: &EntityType) -> (r: Option<Vec2i>)
        requires
            self.wf(),
            self.space_fits(*entity_type),
        ensures
            r == first_fit(
                self.spec_map(),
                seq![self.space_start(*entity_type)] + rings(self.space_start(*entity_type), self.spec_protected_radius()),
                self.spec_properties()[spec_type_index(*entity_type)].size as int,
                *entity_type == EntityType::House,
            ),
    {
        let size = self.get_entity_properties(entity_type).size;
        let house = *entity_type == EntityType::House;
        let half = self.map_size / 2;
        let start = if house {
            let x = if self.start_position.x < half { 0 } else { self.map_size - 1 };
            let y = if self.start_position.y < half { 0 } else { self.map_size - 1 };
            Vec2i::new(x, y)
        } else {
            self.start_position
        };
        let ghost map = self.map;
        let ghost fsize = size as int;
        let limit = self.get_protected_radius();
        let ghost m: int = if limit > 1 { limit as int } else { 1 };
        proof {
            assert(first_fit(map, seq![start], fsize, house) == if fits_at(map, start, fsize, house) {
                Some(start)
            } else {
                None::<Vec2i>
            }) by {
                assert(seq![start].drop_last() =~= Seq::<Vec2i>::empty());
                assert(first_fit(map, Seq::<Vec2i>::empty(), fsize, house) is None);
                assert(seq![start].last() == start);
            }
            lemma_first_fit_concat(map, seq![start], rings(start, limit as int), fsize, house);
        }
        if self.fits_space(start, size, house) {
            return Some(start);
        }
        let mut radius: i32 = 1;
        while radius < limit
            invariant
                self.wf(),
                map == self.map,
                fsize == size,
                start == self.space_start(*entity_type),
                house == (*entity_type == EntityType::House),
                size == self.spec_properties()[spec_type_index(*entity_type)].size,
                limit == self.spec_protected_radius(),
                m == if limit > 1 { limit as int } else { 1 },
                1 <= radius,
                radius <= m,
                in_i32(2 * m + 1),
                in_i32(start.x - m - 1),
                in_i32(start.y - m - 1),
                in_i32(start.x + m + size + 1),
                in_i32(start.y + m + size + 1),
                in_i32(start.x - m + size),
                in_i32(start.y - m + size),
                in_i32(start.x + m + 1),
                in_i32(start.y + m + 1),
                first_fit(map, seq![start] + rings(start, limit as int), fsize, house) == first_fit(
                    map,
                    rings(start, limit as int),
                    fsize,
                    house,
                ),
                first_fit(map, rings(start, radius as int), fsize, house) is None,
            decreases limit - radius,
        {
            let found = self.fit_on_ring(start, radius, size, house, Ghost(m));
            proof {
                lemma_first_fit_concat(map, rings(start, radius as int), ring(start, radius as int), fsize, house);
                assert(rings(start, radius as int + 1) == rings(start, radius as int) + ring(start, radius as int));
            }
            if found.is_some() {
                proof {
                    lemma_rings_prefix(start, radius as int + 1, limit as int);
                    lemma_first_fit_concat(
                        map,
                        rings(start, radius as int + 1),
                        rings_between(start, radius as int + 1, limit as int),
                        fsize,
                        house,
                    );
                }
                return found;
            }
            radius = radius + 1;
        }
        proof {
            if limit > 1 {
                assert(radius == limit);
            } else {
                assert(rings(start, limit as int) =~= Seq::<Vec2i>::empty());
            }
        }
        None
    }

    /// The first cell of the ring of `radius` around `start` where a building of side `size`
    /// fits.
    fn fit_on_ring(&self, start: Vec2i, radius: i32, size: i32, house: bool, Ghost(m): Ghost<int>) -> (r: Option<Vec2i>)
        requires
            self.wf(),
            1 <= radius <= m,
            in_i32(2 * m + 1),
            in_i32(start.x - m - 1),
            in_i32(start.y - m - 1),
            in_i32(start.x + m + size + 1),
            in_i32(start.y + m + size + 1),
            in_i32(start.x - m + size),
            in_i32(start.y - m + size),
            in_i32(start.x + m + 1),
            in_i32(start.y + m + 1),
        ensures
            r == first_fit(self.spec_map(), ring(start, radius as int), size as int, house),
    {
        let ghost map = self.map;
        let min = start - Vec2i::both(radius);
        let side = 2 * radius + 1;
        let cells = crate::grid::border_vec(min, min + Vec2i::both(side));
        assert(cells@ == ring(start, radius as int));
        let mut k: usize = 0;
        while k < cells.len()
            invariant
                self.wf(),
                map == self.map,
                1 <= radius <= m,
                in_i32(start.x - m - 1),
                in_i32(start.y - m - 1),
                in_i32(start.x + m + size + 1),
                in_i32(start.y + m + size + 1),
                in_i32(start.x - m + size),
                in_i32(start.y - m + size),
                in_i32(start.x + m + 1),
                in_i32(start.y + m + 1),
                cells@ == ring(start, radius as int),
                k <= cells.len(),
                first_fit(map, cells@.take(k as int), size as int, house) is None,
            decreases cells.len() - k,
        {
            let c = cells[k];
            proof {
                assert(cells@.take(k + 1).drop_last() =~= cells@.take(k as int));
                assert(cells@.take(k + 1).last() == c);
                assert(cells@.contains(c)) by {
                    assert(cells@[k as int] == c);
                }
                lemma_ring_cells_bounds(start, radius as int, c);
            }
            if self.fits_space(c, size, house) {
                proof {
                    assert(first_fit(map, cells@.take(k + 1), size as int, house) == Some(c));
                    lemma_first_fit_prefix_hit(map, cells@, k as int, size as int, house);
                }
                return Some(c);
            }
            k = k + 1;
        }
        proof {
            assert(cells@.take(cells.len() as int) =~= cells@);
        }
        None
    }
}

/// The rings of radius `lo` up to, not including, `hi`, one after another.
pub open spec fn rings_between(start: Vec2i, lo: int, hi: int) -> Seq<Vec2i>
    decreases hi - lo,
{
    if hi <= lo {
        Seq::empty()
    } else {
        rings_between(start, lo, hi - 1) + ring(start, hi - 1)
    }
}

proof fn lemma_rings_prefix(start: Vec2i, mid: int, hi: int)
    requires
        1 <= mid <= hi,
    ensures
        rings(start, hi) == rings(start, mid) + rings_between(start, mid, hi),
    decreases hi - mid,
{
    if hi == mid {
        assert(rings(start, hi) =~= rings(start, mid) + rings_between(start, mid, hi));
    } else {
        lemma_rings_prefix(start, mid, hi - 1);
        assert(rings(start, hi) =~= rings(start, mid) + rings_between(start, mid, hi));
    }
}

proof fn lemma_first_fit_prefix_hit(map: GameMap, cells: Seq<Vec2i>, k: int, size: int, house: bool)
    requires
        0 <= k < cells.len(),
        first_fit(map, cells.take(k + 1), size, house) is Some,
    ensures
        first_fit(map, cells, size, house) == first_fit(map, cells.take(k + 1), size, house),
{
    assert(cells =~= cells.take(k + 1) + cells.skip(k + 1));
    lemma_first_fit_concat(map, cells.take(k + 1), cells.skip(k + 1), size, house);
}

/// Each cell of a ring lies within `radius` of the start on both axes.
proof fn lemma_ring_cells_bounds(start: Vec2i, radius: int, c: Vec2i)
    requires
        ring(start, radius).contains(c),
        in_i32(start.x - radius),
        in_i32(start.y - radius),
        in_i32(start.x + radius + 1),
        in_i32(start.y + radius + 1),
    ensures
        start.x - radius <= c.x <= start.x + radius,
        start.y - radius <= c.y <= start.y + radius,
{
    let lo = Vec2i { x: (start.x - radius) as i32, y: (start.y - radius) as i32 };
    let hi = Vec2i { x: (start.x + radius + 1) as i32, y: (start.y + radius + 1) as i32 };
    crate::grid::lemma_rect_border_cells_within(lo, hi, c);
}


/// Each entity a query picks is one of the world's, and the query picks it.
pub proof fn lemma_picked_members(es: Seq<Entity>, q: EntityQuery, me: i32, props: Seq<EntityProperties>)
    ensures
        forall|k: int|
            0 <= k < picked(es, q, me, props).len() ==> es.contains(#[trigger] picked(es, q, me, props)[k]) && picks(
                q,
                me,
                props,
                picked(es, q, me, props)[k],
            ),
    decreases es.len(),
{
    if es.len() > 0 {
        let front = es.drop_last();
        lemma_picked_members(front, q, me, props);
        let rest = picked(front, q, me, props);
        assert forall|k: int| 0 <= k < picked(es, q, me, props).len() implies es.contains(
            #[trigger] picked(es, q, me, props)[k],
        ) && picks(q, me, props, picked(es, q, me, props)[k]) by {
            if k < rest.len() {
                assert(picked(es, q, me, props)[k] == rest[k]);
                assert(front.contains(rest[k]));
                let j = choose|j: int| 0 <= j < front.len() && front[j] == rest[k];
                assert(es[j] == rest[k]);
            } else {
                assert(picked(es, q, me, props)[k] == es.last());
                assert(es[es.len() - 1] == es.last());
            }
        }
    }
}

impl World {
    /// The shapes a well-formed world keeps: one property and one count per kind, one threat
    /// flag per map cell, and every entity placed on the map.
    pub proof fn lemma_wf(self)
        requires
            self.wf(),
        ensures
            self.spec_properties().len() == ENTITY_TYPES_COUNT,
            self.spec_counts().len() == ENTITY_TYPES_COUNT,
            0 <= self.spec_map_size(),
            self.spec_map_size() * self.spec_map_size() <= usize::MAX,
            self.spec_attacked().len() == self.spec_map_size() * self.spec_map_size(),
            self.spec_map().spec_size() == self.spec_map_size(),
            all_placed(self.spec_entities(), self.spec_properties(), self.spec_map_size() as int),
    {
    }

    /// Whether every entity lies on the map, and the distances between entities and from
    /// each to the start fit in an `i32`.
    pub open spec fn distances_fit(self) -> bool {
        let es = self.spec_entities();
        &&& forall|i: int| 0 <= i < es.len() ==> in_map(self.spec_map_size() as int, #[trigger] es[i].position)
        &&& forall|i: int| 0 <= i < es.len() ==> manhattan(#[trigger] es[i].position, self.spec_start_position()) <= i32::MAX
        &&& forall|i: int, j: int|
            0 <= i < es.len() && 0 <= j < es.len() ==> manhattan(#[trigger] es[i].position, #[trigger] es[j].position)
                <= i32::MAX
    }
}


/// Releasing what a request asked for gives back the resource the player had free before the
/// request.
pub proof fn lemma_release_undoes_request(before: World, requested: World, released: World, amount: i32)
    requires
        requested.same_but_ledger(before),
        requested.spec_allocated() == before.spec_allocated(),
        requested.spec_requested() == before.spec_requested() + amount,
        released.same_but_ledger(requested),
        released.spec_allocated() == requested.spec_allocated(),
        released.spec_requested() == requested.spec_requested() - amount,
    ensures
        released.spec_requested() == before.spec_requested(),
        released.spec_my_resource() == before.spec_my_resource(),
{
}

/// A granted allocation never sets aside more than was free: what stays free is what was free
/// less the amount, and not below zero.
pub proof fn lemma_allocation_within_free(before: World, after: World, amount: i32)
    requires
        before.spec_my_resource() >= amount,
        after.same_but_ledger(before),
        after.spec_requested() == before.spec_requested(),
        after.spec_allocated() == before.spec_allocated() + amount,
    ensures
        after.spec_my_resource() == before.spec_my_resource() - amount,
        after.spec_my_resource() >= 0,
{
}

} // verus!
