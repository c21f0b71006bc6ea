use vstd::prelude::*;
use crate::entity_simulator::{
    all_available, entity_index, find_entity_index, has_entity, played, props_of, resolved_ok, shuffle, sim_bounds, sim_fits,
    simulate_ready, small_position, tile_index, properties_fit, properties_fit_check, EntitySimulator, SimView,
    SimulatedEntity, SimulatedEntityAction, SimulatedEntityActionType, SimulatedPlayer,
};
use crate::entity_type::{spec_type_index, EntityProperties, EntityType, ENTITY_TYPES_COUNT};
use crate::grid::{lemma_visit_range_members, visit_range, visit_range_cells};
use crate::search::{best_entry, lemma_queue_push, lemma_queue_remove, queue_ok, queued};
use crate::vec2::{in_i32, Vec2i};
use rand::rngs::StdRng;

verus! {

/// The moves of one entity, tick by tick, that lead to the best state an entity search found,
/// and that state's score.
#[derive(Clone, Debug)]
pub struct EntityPlan {
    pub transitions: Vec<SimulatedEntityActionType>,
    pub score: i32,
}

impl Default for EntityPlan {
    fn default() -> (r: Self)
        ensures
            r.transitions@ == Seq::<SimulatedEntityActionType>::empty(),
            r.score == 0,
    {
        EntityPlan { transitions: Vec::new(), score: 0 }
    }
}

/// The one item of `o`, or nothing.
pub open spec fn opt_seq<A>(o: Option<A>) -> Seq<A> {
    match o {
        Some(a) => seq![a],
        None => Seq::empty(),
    }
}

/// Kind `t` fights on its own: it can attack and is no builder.
pub open spec fn spec_is_active(t: EntityType, props: Seq<EntityProperties>) -> bool {
    t != EntityType::BuilderUnit && props[spec_type_index(t)].attack is Some
}

/// Whether kind `entity_type` fights on its own: it can attack and is no builder.
pub fn is_active_entity_type(entity_type: &EntityType, entity_properties: &Vec<EntityProperties>) -> (r: bool)
    requires
        entity_properties.len() == ENTITY_TYPES_COUNT,
    ensures
        r == spec_is_active(*entity_type, entity_properties@),
{
    *entity_type != EntityType::BuilderUnit && entity_properties[entity_type.index()].attack.is_some()
}

/// Where the first plan of entity `id` stands among `plans`, or -1 when it has none.
pub open spec fn plan_index(plans: Seq<(i32, EntityPlan)>, id: i32) -> int
    decreases plans.len(),
{
    if plans.len() == 0 {
        -1
    } else {
        let k = plan_index(plans.drop_last(), id);
        if k >= 0 {
            k
        } else if plans.last().0 == id {
            plans.len() - 1
        } else {
            -1
        }
    }
}

/// What entity `e` does in a tick `depth` ticks deep into a search for entity `me`: nothing when
/// it is `me` or belongs to no player; the step of its plan for that tick when it has a plan
/// that long; else an automatic attack when its kind fights on its own.
pub open spec fn other_action(e: SimulatedEntity, me: i32, depth: int, plans: Seq<(i32, EntityPlan)>, props: Seq<EntityProperties>) -> Option<SimulatedEntityAction> {
    if e.id == me || e.player_id is None {
        None
    } else {
        let k = plan_index(plans, e.id);
        if k >= 0 && depth < plans[k].1.transitions@.len() {
            Some(SimulatedEntityAction { entity_id: e.id, action_type: plans[k].1.transitions@[depth] })
        } else if spec_is_active(e.entity_type, props) {
            Some(SimulatedEntityAction { entity_id: e.id, action_type: SimulatedEntityActionType::AutoAttack })
        } else {
            None
        }
    }
}

/// What the entities other than `me` do in a tick `depth` ticks deep, in the order of `entities`.
pub open spec fn actions_of_others(entities: Seq<SimulatedEntity>, me: i32, depth: int, plans: Seq<(i32, EntityPlan)>, props: Seq<EntityProperties>) -> Seq<SimulatedEntityAction>
    decreases entities.len(),
{
    if entities.len() == 0 {
        Seq::empty()
    } else {
        actions_of_others(entities.drop_last(), me, depth, plans, props) + opt_seq(other_action(entities.last(), me, depth, plans, props))
    }
}

/// `t` belongs to a player, and not to the player of `e`.
pub open spec fn is_enemy(e: SimulatedEntity, t: SimulatedEntity) -> bool {
    t.player_id is Some && t.player_id != e.player_id
}

/// The attacks of `e` on the enemies among `entities` whose square is within `range` of its
/// own, in the order of `entities`.
pub open spec fn near_attacks(entities: Seq<SimulatedEntity>, e: SimulatedEntity, props: Seq<EntityProperties>, range: int) -> Seq<SimulatedEntityActionType>
    decreases entities.len(),
{
    if entities.len() == 0 {
        Seq::empty()
    } else {
        let t = entities.last();
        near_attacks(entities.drop_last(), e, props, range) + if t.id != e.id && is_enemy(e, t) && t.spec_bounds(props).spec_distance(
            e.spec_bounds(props),
        ) <= range {
            seq![SimulatedEntityActionType::Attack { target: t.id }]
        } else {
            Seq::empty()
        }
    }
}

/// The attack of `e` on the enemy whose id the tile at `p` holds, unless `p` is where `e`
/// stands, the tile is free, or its entity is gone.
pub open spec fn cell_attack(v: SimView, e: SimulatedEntity, p: Vec2i) -> Seq<SimulatedEntityActionType> {
    if p == e.position {
        Seq::empty()
    } else {
        match v.tiles[tile_index(v, p)] {
            Some(id) => if has_entity(v.entities, id) && is_enemy(e, v.entities[entity_index(v.entities, id)]) {
                seq![SimulatedEntityActionType::Attack { target: id }]
            } else {
                Seq::empty()
            },
            None => Seq::empty(),
        }
    }
}

/// The attacks of `e` on what the tiles at `cells` hold, in the order of `cells`.
pub open spec fn range_attacks(v: SimView, e: SimulatedEntity, cells: Seq<Vec2i>) -> Seq<SimulatedEntityActionType>
    decreases cells.len(),
{
    if cells.len() == 0 {
        Seq::empty()
    } else {
        range_attacks(v, e, cells.drop_last()) + cell_attack(v, e, cells.last())
    }
}

/// The attacks `e` can be told in `v`: none when its kind cannot attack; with fewer entities
/// than the square of its attack range, one on each enemy in range, in the order of the
/// entities; else one for each tile in range that holds an enemy, row by row.
pub open spec fn attack_actions(v: SimView, props: Seq<EntityProperties>, e: SimulatedEntity) -> Seq<SimulatedEntityActionType> {
    match props_of(props, e).attack {
        None => Seq::empty(),
        Some(a) => if v.entities.len() < a.attack_range * a.attack_range {
            near_attacks(v.entities, e, props, a.attack_range as int)
        } else {
            range_attacks(v, e, visit_range_cells(e.position, props_of(props, e).size as int, a.attack_range as int, sim_bounds(v)))
        },
    }
}

/// The moves of one cell that keep `e` on a map `map_size` cells wide: right, down, left, up.
pub open spec fn move_actions(e: SimulatedEntity, map_size: int) -> Seq<SimulatedEntityActionType> {
    let p = e.position;
    (if p.x + 1 < map_size { seq![SimulatedEntityActionType::MoveEntity { direction: Vec2i { x: 1, y: 0 } }] } else { Seq::empty() })
        + (if p.y + 1 < map_size { seq![SimulatedEntityActionType::MoveEntity { direction: Vec2i { x: 0, y: 1 } }] } else { Seq::empty() })
        + (if p.x > 0 { seq![SimulatedEntityActionType::MoveEntity { direction: Vec2i { x: -1i32, y: 0 } }] } else { Seq::empty() })
        + (if p.y > 0 { seq![SimulatedEntityActionType::MoveEntity { direction: Vec2i { x: 0, y: -1i32 } }] } else { Seq::empty() })
}

/// The steps an entity search tries for `e` in `v`: its attacks, then its moves.
pub open spec fn candidate_actions(v: SimView, props: Seq<EntityProperties>, e: SimulatedEntity, map_size: int) -> Seq<SimulatedEntityActionType> {
    attack_actions(v, props, e) + move_actions(e, map_size)
}

/// How good the tallies are for player `player_id`: its own score, damage dealt and damage
/// taken count for it, every other player's against it.
pub open spec fn plan_score(player_id: i32, players: Seq<SimulatedPlayer>) -> int
    decreases players.len(),
{
    if players.len() == 0 {
        0
    } else {
        let p = players.last();
        plan_score(player_id, players.drop_last()) + if p.id == player_id {
            p.score + p.damage_done - p.damage_received
        } else {
            p.damage_received - p.damage_done - p.score
        }
    }
}

/// Changing one player's tallies changes the plan score by the change in that player's score
/// plus damage dealt minus damage taken: with the sign for the planning player, against it for
/// any other player. With no players the score is 0.
pub proof fn lemma_plan_score_change(player_id: i32, players: Seq<SimulatedPlayer>, i: int, q: SimulatedPlayer)
    requires
        0 <= i < players.len(),
        q.id == players[i].id,
    ensures
        plan_score(player_id, Seq::empty()) == 0,
        q.id == player_id ==> plan_score(player_id, players.update(i, q)) - plan_score(player_id, players) == (q.score
            - players[i].score) + (q.damage_done - players[i].damage_done) - (q.damage_received - players[i].damage_received),
        q.id != player_id ==> plan_score(player_id, players.update(i, q)) - plan_score(player_id, players) == (
        players[i].score - q.score) + (players[i].damage_done - q.damage_done) - (players[i].damage_received
            - q.damage_received),
    decreases players.len(),
{
    let u = players.update(i, q);
    if i < players.len() - 1 {
        lemma_plan_score_change(player_id, players.drop_last(), i, q);
        assert(players.drop_last()[i] == players[i]);
        assert(u.drop_last() =~= players.drop_last().update(i, q));
        assert(u.last() == players.last());
    } else {
        assert(u.drop_last() =~= players.drop_last());
        assert(u.last() == q);
    }
}

/// `next` is what one tick of `v` can come to: automatic attacks resolved, the actions put in
/// some order of the same actions, and the tick played in that order.
pub open spec fn ticked(v: SimView, props: Seq<EntityProperties>, next: SimView) -> bool {
    exists|resolved: Seq<SimulatedEntityAction>, order: Seq<SimulatedEntityAction>|
        #[trigger] resolved_ok(all_available(v), props, v.actions, resolved) && #[trigger] order.to_multiset()
            == resolved.to_multiset() && next == played(SimView { actions: order, ..all_available(v) }, order, props)
}

/// `v` with `actions` added after its pending ones.
pub open spec fn with_actions(v: SimView, actions: Seq<SimulatedEntityAction>) -> SimView {
    SimView { actions: v.actions + actions, ..v }
}

/// The entity with id `id` in `v`.
pub open spec fn entity_of(v: SimView, id: i32) -> SimulatedEntity {
    v.entities[entity_index(v.entities, id)]
}

/// Where the first plan of entity `id` stands among `plans`.
fn find_plan(plans: &[(i32, EntityPlan)], id: i32) -> (r: Option<usize>)
    ensures
        match r {
            Some(k) => k == plan_index(plans@, id) && k < plans@.len(),
            None => plan_index(plans@, id) == -1,
        },
{
    let mut k: usize = 0;
    while k < plans.len()
        invariant
            k <= plans@.len(),
            plan_index(plans@.take(k as int), id) == -1,
        decreases plans@.len() - k,
    {
        proof {
            assert(plans@.take(k + 1).drop_last() =~= plans@.take(k as int));
            assert(plans@.take(k + 1).last() == plans@[k as int]);
        }
        if plans[k].0 == id {
            proof {
                lemma_plan_index_prefix(plans@, k as int + 1, id);
            }
            return Some(k);
        }
        k = k + 1;
    }
    proof {
        assert(plans@.take(plans@.len() as int) =~= plans@);
    }
    None
}

/// A plan found among the first `n` plans is the first plan of all of them.
proof fn lemma_plan_index_prefix(plans: Seq<(i32, EntityPlan)>, n: int, id: i32)
    requires
        0 <= n <= plans.len(),
        plan_index(plans.take(n), id) >= 0,
    ensures
        plan_index(plans, id) == plan_index(plans.take(n), id),
    decreases plans.len() - n,
{
    if n < plans.len() {
        let t = plans.take(n + 1);
        assert(t.drop_last() =~= plans.take(n));
        lemma_plan_index_prefix(plans, n + 1, id);
    } else {
        assert(plans.take(n) =~= plans);
    }
}

/// The moves of one cell that keep `entity` on a map `map_size` cells wide, added to `actions`.
fn add_move_entity_actions(entity: &SimulatedEntity, map_size: i32, actions: &mut Vec<SimulatedEntityActionType>)
    requires
        small_position(entity.position),
    ensures
        final(actions)@ == old(actions)@ + move_actions(*entity, map_size as int),
{
    let ghost start = actions@;
    if entity.position.x + 1 < map_size {
        actions.push(SimulatedEntityActionType::MoveEntity { direction: Vec2i::only_x(1) });
    }
    let ghost a = actions@;
    if entity.position.y + 1 < map_size {
        actions.push(SimulatedEntityActionType::MoveEntity { direction: Vec2i::only_y(1) });
    }
    let ghost b = actions@;
    if entity.position.x > 0 {
        actions.push(SimulatedEntityActionType::MoveEntity { direction: Vec2i::only_x(-1) });
    }
    let ghost c = actions@;
    if entity.position.y > 0 {
        actions.push(SimulatedEntityActionType::MoveEntity { direction: Vec2i::only_y(-1) });
    }
    proof {
        let p = entity.position;
        let m = map_size as int;
        let s1: Seq<SimulatedEntityActionType> = if p.x + 1 < m { seq![SimulatedEntityActionType::MoveEntity { direction: Vec2i { x: 1, y: 0 } }] } else { Seq::empty() };
        let s2: Seq<SimulatedEntityActionType> = if p.y + 1 < m { seq![SimulatedEntityActionType::MoveEntity { direction: Vec2i { x: 0, y: 1 } }] } else { Seq::empty() };
        let s3: Seq<SimulatedEntityActionType> = if p.x > 0 { seq![SimulatedEntityActionType::MoveEntity { direction: Vec2i { x: -1i32, y: 0 } }] } else { Seq::empty() };
        let s4: Seq<SimulatedEntityActionType> = if p.y > 0 { seq![SimulatedEntityActionType::MoveEntity { direction: Vec2i { x: 0, y: -1i32 } }] } else { Seq::empty() };
        assert(a =~= start + s1);
        assert(b =~= start + s1 + s2);
        assert(c =~= start + s1 + s2 + s3);
        assert(actions@ =~= start + (s1 + s2 + s3 + s4));
    }
}

/// The attacks `entity` can be told in `simulator` (see `attack_actions`), added to `actions`.
fn add_attack_actions(entity: &SimulatedEntity, simulator: &EntitySimulator, entity_properties: &Vec<EntityProperties>, actions: &mut Vec<SimulatedEntityActionType>)
    requires
        sim_fits(simulator@),
        properties_fit(entity_properties@),
        small_position(entity.position),
    ensures
        final(actions)@ == old(actions)@ + attack_actions(simulator@, entity_properties@, *entity),
{
    let ghost start = actions@;
    let ghost v = simulator@;
    let ghost props = entity_properties@;
    let properties = &entity_properties[entity.entity_type.index()];
    proof {
        assert(*properties == props_of(props, *entity));
    }
    match &properties.attack {
        None => {
            assert(actions@ =~= start + attack_actions(v, props, *entity));
        },
        Some(attack) => {
            let range = attack.attack_range;
            let entities = simulator.entities();
            assert((range as u64) * (range as u64) <= 0x100_0000_0000) by (nonlinear_arith)
                requires
                    0 <= range <= 0x10_0000,
            ;
            if (entities.len() as u64) < (range as u64) * (range as u64) {
                let entity_bounds = entity.bounds(entity_properties);
                let mut i: usize = 0;
                while i < entities.len()
                    invariant
                        i <= entities.len(),
                        entities@ == v.entities,
                        sim_fits(v),
                        properties_fit(props),
                        props == entity_properties@,
                        small_position(entity.position),
                        entity_bounds == entity.spec_bounds(props),
                        actions@ == start + near_attacks(entities@.take(i as int), *entity, props, range as int),
                    decreases entities.len() - i,
                {
                    let target = entities[i];
                    proof {
                        assert(small_position(v.entities[i as int].position));
                        assert(entities@.take(i + 1).drop_last() =~= entities@.take(i as int));
                        assert(entities@.take(i + 1).last() == target);
                        let tp = props[spec_type_index(target.entity_type)];
                        let ep = props[spec_type_index(entity.entity_type)];
                        assert(0 <= tp.size <= 0x400);
                        assert(0 <= ep.size <= 0x400);
                    }
                    if target.id != entity.id && target.player_id.is_some() && target.player_id != entity.player_id {
                        let target_bounds = target.bounds(entity_properties);
                        if target_bounds.distance(&entity_bounds) <= range {
                            actions.push(SimulatedEntityActionType::Attack { target: target.id });
                        }
                    }
                    proof {
                        assert(actions@ =~= start + near_attacks(entities@.take(i + 1), *entity, props, range as int));
                    }
                    i = i + 1;
                }
                proof {
                    assert(entities@.take(entities.len() as int) =~= entities@);
                }
            } else {
                let bounds = simulator.bounds();
                let cells = visit_range(entity.position, properties.size, range, &bounds);
                let tiles = simulator.tiles();
                let mut c: usize = 0;
                while c < cells.len()
                    invariant
                        c <= cells.len(),
                        cells@ == visit_range_cells(entity.position, properties.size as int, range as int, bounds),
                        bounds == sim_bounds(v),
                        v == simulator@,
                        tiles@ == v.tiles,
                        entities@ == v.entities,
                        sim_fits(v),
                        small_position(entity.position),
                        0 <= properties.size <= 0x400,
                        0 <= range <= 0x10_0000,
                        actions@ == start + range_attacks(v, *entity, cells@.take(c as int)),
                    decreases cells.len() - c,
                {
                    let p = cells[c];
                    let ghost before = actions@;
                    proof {
                        assert(cells@.take(c + 1).drop_last() =~= cells@.take(c as int));
                        assert(cells@.take(c + 1).last() == p);
                        assert(cells@.contains(p));
                        lemma_visit_range_members(entity.position, properties.size as int, range as int, bounds, p);
                    }
                    if p != entity.position {
                        let index = simulator.tile_index_of(p);
                        match tiles[index] {
                            Some(target_id) => {
                                match find_entity_index(entities, target_id) {
                                    Some(k) => {
                                        let target = entities[k];
                                        if target.player_id.is_some() && target.player_id != entity.player_id {
                                            actions.push(SimulatedEntityActionType::Attack { target: target_id });
                                        }
                                    },
                                    None => {},
                                }
                            },
                            None => {},
                        }
                    }
                    proof {
                        assert(range_attacks(v, *entity, cells@.take(c + 1)) == range_attacks(v, *entity, cells@.take(c as int))
                            + cell_attack(v, *entity, p));
                        assert(actions@ =~= before + cell_attack(v, *entity, p));
                        assert(actions@ =~= start + range_attacks(v, *entity, cells@.take(c + 1)));
                    }
                    c = c + 1;
                }
                proof {
                    assert(cells@.take(cells.len() as int) =~= cells@);
                }
            }
        },
    }
}

/// A state of an entity search: the simulation, how many ticks led there, and the step that did.
struct PlanState {
    depth: usize,
    simulator: EntitySimulator,
    transition: Option<usize>,
}

/// A step of an entity search: the state it was taken from and what the entity was told.
struct PlanTransition {
    state_index: usize,
    action_type: SimulatedEntityActionType,
}

/// What an entity search played with: the entity properties, the plans of other entities, and
/// the width of the map.
pub struct PlanSetting {
    pub props: Seq<EntityProperties>,
    pub plans: Seq<(i32, EntityPlan)>,
    pub map_size: int,
}

/// A best-first search, tick by tick, over what one entity of a player can be told to do in a
/// simulated fight, while the other entities follow their plans or attack on their own.
pub struct EntityPlanner {
    player_id: i32,
    entity_id: i32,
    states: Vec<PlanState>,
    transitions: Vec<PlanTransition>,
    plan: EntityPlan,
    min_depth: usize,
    max_depth: usize,
    optimal_final_state_index: Option<usize>,
    setting: Ghost<PlanSetting>,
    taken: Ghost<Seq<(int, int)>>,
}

impl EntityPlanner {
    /// A planner for entity `entity_id` of player `player_id`, whose plans are chosen among
    /// states at least `min_depth` ticks deep and grow no deeper than `max_depth` ticks.
    pub fn new(player_id: i32, entity_id: i32, min_depth: usize, max_depth: usize) -> (r: Self)
        ensures
            r.spec_player_id() == player_id,
            r.spec_entity_id() == entity_id,
            r.spec_min_depth() == min_depth,
            r.spec_max_depth() == max_depth,
            r.spec_plan().transitions@ == Seq::<SimulatedEntityActionType>::empty(),
            r.spec_plan().score == 0,
            r.states_len() == 0,
            r.optimal() is None,
    {
        EntityPlanner {
            player_id,
            entity_id,
            states: Vec::new(),
            transitions: Vec::new(),
            plan: EntityPlan::default(),
            min_depth,
            max_depth,
            optimal_final_state_index: None,
            setting: Ghost(PlanSetting { props: Seq::empty(), plans: Seq::empty(), map_size: 0 }),
            taken: Ghost(Seq::empty()),
        }
    }

    /// Whether state `i` was taken from the queue before its `t`-th take.
    pub closed spec fn taken_before(self, t: int, i: int) -> bool {
        exists|u: int| 0 <= u < t && (#[trigger] self.taken@[u]).0 == i
    }

    /// How many times a state was taken from the queue in the last search.
    pub closed spec fn takes(self) -> nat {
        self.taken@.len()
    }

    /// The search went best score first: each state taken from the queue was queued then (it
    /// was there and not taken before), and none of the states then queued scores higher.
    pub closed spec fn best_first(self) -> bool {
        forall|t: int| 0 <= t < self.taken@.len() ==> #[trigger] self.best_take(t)
    }

    /// Takes and states kept as they were, and scored as they were, keep each take the best.
    proof fn lemma_best_first_kept(self, next: Self)
        requires
            self.best_first(),
            next.player_id == self.player_id,
            self.taken@.len() <= next.taken@.len(),
            forall|u: int| 0 <= u < self.taken@.len() ==> #[trigger] next.taken@[u] == self.taken@[u],
            self.states@.len() <= next.states@.len(),
            forall|i: int| 0 <= i < self.states@.len() ==> #[trigger] next.states@[i] == self.states@[i],
        ensures
            forall|t: int| 0 <= t < self.taken@.len() ==> #[trigger] next.best_take(t),
    {
        assert forall|t: int| 0 <= t < self.taken@.len() implies #[trigger] next.best_take(t) by {
            assert(self.best_take(t));
            assert forall|i: int| #![trigger next.taken_before(t, i)] next.taken_before(t, i) == self.taken_before(t, i) by {
                if next.taken_before(t, i) {
                    let u = choose|u: int| 0 <= u < t && (#[trigger] next.taken@[u]).0 == i;
                    assert(self.taken@[u].0 == i);
                }
                if self.taken_before(t, i) {
                    let u = choose|u: int| 0 <= u < t && (#[trigger] self.taken@[u]).0 == i;
                    assert(next.taken@[u].0 == i);
                }
            }
            let n = self.taken@[t].1;
            assert forall|i: int| 0 <= i < n implies #[trigger] next.key(i) == self.key(i) by {
                assert(next.states@[i] == self.states@[i]);
            }
        }
    }

    /// The `t`-th take from the queue took a state then queued, with the best score among them.
    pub closed spec fn best_take(self, t: int) -> bool {
        let s = self.taken@[t].0;
        let n = self.taken@[t].1;
        &&& 0 <= s < n <= self.states@.len()
        &&& !self.taken_before(t, s)
        &&& forall|i: int| 0 <= i < n && !self.taken_before(t, i) ==> #[trigger] self.key(i) <= self.key(s)
    }

    pub closed spec fn spec_player_id(self) -> i32 {
        self.player_id
    }

    pub closed spec fn spec_entity_id(self) -> i32 {
        self.entity_id
    }

    pub closed spec fn spec_min_depth(self) -> int {
        self.min_depth as int
    }

    pub closed spec fn spec_max_depth(self) -> int {
        self.max_depth as int
    }

    /// The plan the last search found.
    pub closed spec fn spec_plan(self) -> EntityPlan {
        self.plan
    }

    /// What the last search played with.
    pub closed spec fn setting(self) -> PlanSetting {
        self.setting@
    }

    /// How many states the last search kept.
    pub closed spec fn states_len(self) -> int {
        self.states.len() as int
    }

    /// The simulation of state `i` of the last search.
    pub closed spec fn state_simulator(self, i: int) -> EntitySimulator {
        self.states@[i].simulator
    }

    /// How many ticks deep state `i` of the last search lies.
    pub closed spec fn depth_of(self, i: int) -> int {
        self.states@[i].depth as int
    }

    /// The best state the last search found.
    pub closed spec fn optimal(self) -> Option<usize> {
        self.optimal_final_state_index
    }

    /// The score by which the search ranks state `i`: how good its tallies are for the player,
    /// except the first state, which starts at 0.
    pub closed spec fn key(self, i: int) -> int {
        if i == 0 {
            0
        } else {
            plan_score(self.player_id, self.states@[i].simulator@.players)
        }
    }

    /// The steps of the entity that lead from the first state to state `i`.
    pub closed spec fn chain(self, i: int) -> Seq<SimulatedEntityActionType>
        decreases i,
    {
        if i <= 0 || i > self.transitions.len() {
            Seq::empty()
        } else {
            let t = self.transitions@[i - 1];
            if t.state_index < i {
                self.chain(t.state_index as int).push(t.action_type)
            } else {
                Seq::empty()
            }
        }
    }

    /// The states and steps of the last search form a tree rooted at the first state; each step
    /// is one the entity could be told in the state it was taken from, and the state it leads to
    /// is what a tick of that state comes to with the entity told so and the other entities
    /// doing what `other_actions` tells.
    pub closed spec fn tree_ok(self) -> bool {
        let g = self.setting@;
        &&& self.states.len() >= 1
        &&& self.transitions.len() + 1 == self.states.len()
        &&& self.states@[0].transition is None
        &&& self.states@[0].depth == 0
        &&& forall|i: int| 0 <= i < self.states.len() ==> #[trigger] self.states@[i].depth <= i
        &&& forall|i: int|
            1 <= i < self.states.len() ==> {
                let t = #[trigger] self.transitions@[i - 1];
                let parent = self.states@[t.state_index as int];
                let v = parent.simulator@;
                &&& self.states@[i].transition == Some((i - 1) as usize)
                &&& t.state_index < i
                &&& self.states@[i].depth == parent.depth + 1
                &&& has_entity(v.entities, self.entity_id)
                &&& candidate_actions(v, g.props, entity_of(v, self.entity_id), g.map_size).contains(t.action_type)
                &&& ticked(
                    with_actions(
                        v,
                        seq![SimulatedEntityAction { entity_id: self.entity_id, action_type: t.action_type }]
                            + actions_of_others(v.entities, self.entity_id, parent.depth as int, g.plans, g.props),
                    ),
                    g.props,
                    self.states@[i].simulator@,
                )
            }
    }

    /// The simulation of state `i` with the entity told `a` and the other entities doing what
    /// `actions_of_others` tells, before the tick is played.
    pub closed spec fn step_pre(self, i: int, a: SimulatedEntityActionType) -> SimView {
        let g = self.setting@;
        let v = self.states@[i].simulator@;
        with_actions(
            v,
            seq![SimulatedEntityAction { entity_id: self.entity_id, action_type: a }]
                + actions_of_others(v.entities, self.entity_id, self.states@[i].depth as int, g.plans, g.props),
        )
    }

    /// Step `a` from state `i` was played, or could not be: a step from state `i` tells the
    /// entity `a`, or the tick cannot be played (`simulate_ready` fails), or it can come to a
    /// state whose score does not fit an `i32`.
    pub closed spec fn reached(self, i: int, a: SimulatedEntityActionType) -> bool {
        let pre = self.step_pre(i, a);
        ||| (exists|j: int|
            1 <= j < self.states.len() && #[trigger] self.transitions@[j - 1].state_index == i && self.transitions@[j - 1].action_type
                == a)
        ||| !simulate_ready(pre, self.setting@.props)
        ||| (exists|next: SimView| #[trigger] ticked(pre, self.setting@.props, next) && !in_i32(plan_score(self.player_id, next.players)))
    }

    /// State `i` grew by every step the entity can be told there (`candidate_actions`), unless
    /// it was deep enough (at least `min_depth` and `max_depth` ticks), the search took
    /// `max_transitions` steps, its simulation or the properties do not fit, or the entity is
    /// not there.
    pub closed spec fn expanded(self, i: int, max_transitions: int) -> bool {
        let g = self.setting@;
        let v = self.states@[i].simulator@;
        ||| (self.states@[i].depth >= self.min_depth && self.states@[i].depth >= self.max_depth)
        ||| self.transitions.len() >= max_transitions
        ||| !sim_fits(v)
        ||| !properties_fit(g.props)
        ||| !has_entity(v.entities, self.entity_id)
        ||| forall|a: SimulatedEntityActionType|
            #[trigger] candidate_actions(v, g.props, entity_of(v, self.entity_id), g.map_size).contains(a) ==> self.reached(i, a)
    }

    /// A search that only grew keeps every step it played.
    proof fn lemma_reached_kept(self, next: Self, i: int, a: SimulatedEntityActionType)
        requires
            self.reached(i, a),
            0 <= i < self.states.len(),
            self.transitions.len() + 1 == self.states.len(),
            next.transitions.len() + 1 == next.states.len(),
            next.states.len() >= self.states.len(),
            next.transitions.len() >= self.transitions.len(),
            next.setting == self.setting,
            next.entity_id == self.entity_id,
            next.player_id == self.player_id,
            forall|k: int| 0 <= k < self.states.len() ==> #[trigger] next.states@[k] == self.states@[k],
            forall|k: int| 0 <= k < self.transitions.len() ==> #[trigger] next.transitions@[k] == self.transitions@[k],
        ensures
            next.reached(i, a),
    {
        assert(next.states@[i] == self.states@[i]);
        assert(next.step_pre(i, a) == self.step_pre(i, a));
        if exists|j: int|
            1 <= j < self.states.len() && #[trigger] self.transitions@[j - 1].state_index == i && self.transitions@[j - 1].action_type == a {
            let j = choose|j: int|
                1 <= j < self.states.len() && #[trigger] self.transitions@[j - 1].state_index == i && self.transitions@[j - 1].action_type
                    == a;
            assert(next.transitions@[j - 1] == self.transitions@[j - 1]);
        }
    }

    /// A search that only grew keeps every state it expanded so.
    proof fn lemma_expanded_kept(self, next: Self, i: int, max_transitions: int)
        requires
            self.expanded(i, max_transitions),
            0 <= i < self.states.len(),
            self.transitions.len() + 1 == self.states.len(),
            next.transitions.len() + 1 == next.states.len(),
            next.states.len() >= self.states.len(),
            next.transitions.len() >= self.transitions.len(),
            next.setting == self.setting,
            next.entity_id == self.entity_id,
            next.player_id == self.player_id,
            next.min_depth == self.min_depth,
            next.max_depth == self.max_depth,
            forall|k: int| 0 <= k < self.states.len() ==> #[trigger] next.states@[k] == self.states@[k],
            forall|k: int| 0 <= k < self.transitions.len() ==> #[trigger] next.transitions@[k] == self.transitions@[k],
        ensures
            next.expanded(i, max_transitions),
    {
        assert(next.states@[i] == self.states@[i]);
        let g = self.setting@;
        let v = self.states@[i].simulator@;
        assert forall|a: SimulatedEntityActionType|
            #[trigger] candidate_actions(v, g.props, entity_of(v, self.entity_id), g.map_size).contains(a) && self.reached(i, a)
                implies next.reached(i, a) by {
            self.lemma_reached_kept(next, i, a);
        }
    }

    pub fn entity_id(&self) -> (r: i32)
        ensures
            r == self.spec_entity_id(),
    {
        self.entity_id
    }

    pub fn plan(&self) -> (r: &EntityPlan)
        ensures
            *r == self.spec_plan(),
    {
        &self.plan
    }

    /// Forgets the plan.
    pub fn reset(&mut self)
        ensures
            final(self).spec_plan().transitions@ == Seq::<SimulatedEntityActionType>::empty(),
            final(self).spec_plan().score == 0,
            final(self).spec_player_id() == old(self).spec_player_id(),
            final(self).spec_entity_id() == old(self).spec_entity_id(),
            final(self).spec_min_depth() == old(self).spec_min_depth(),
            final(self).spec_max_depth() == old(self).spec_max_depth(),
    {
        self.plan = EntityPlan::default();
    }

    /// What the entities other than the planned one do in the tick after state `state_index`.
    fn get_other_actions(&self, state_index: usize, entity_properties: &Vec<EntityProperties>, plans: &[(i32, EntityPlan)]) -> (r: Vec<SimulatedEntityAction>)
        requires
            state_index < self.states.len(),
            entity_properties.len() == ENTITY_TYPES_COUNT,
        ensures
            r@ == actions_of_others(
                self.states@[state_index as int].simulator@.entities,
                self.entity_id,
                self.states@[state_index as int].depth as int,
                plans@,
                entity_properties@,
            ),
    {
        let state = &self.states[state_index];
        let entities = state.simulator.entities();
        let ghost depth = state.depth as int;
        let mut result: Vec<SimulatedEntityAction> = Vec::new();
        let mut i: usize = 0;
        while i < entities.len()
            invariant
                i <= entities.len(),
                entity_properties.len() == ENTITY_TYPES_COUNT,
                depth == state.depth,
                result@ == actions_of_others(entities@.take(i as int), self.entity_id, depth, plans@, entity_properties@),
            decreases entities.len() - i,
        {
            let entity = entities[i];
            let ghost before = result@;
            proof {
                assert(entities@.take(i + 1).drop_last() =~= entities@.take(i as int));
                assert(entities@.take(i + 1).last() == entity);
            }
            if entity.id != self.entity_id && entity.player_id.is_some() {
                let mut planned = false;
                match find_plan(plans, entity.id) {
                    Some(k) => {
                        if state.depth < plans[k].1.transitions.len() {
                            result.push(SimulatedEntityAction { entity_id: entity.id, action_type: plans[k].1.transitions[state.depth] });
                            planned = true;
                        }
                    },
                    None => {},
                }
                if !planned && is_active_entity_type(&entity.entity_type, entity_properties) {
                    result.push(SimulatedEntityAction { entity_id: entity.id, action_type: SimulatedEntityActionType::AutoAttack });
                }
            }
            proof {
                assert(result@ =~= before + opt_seq(other_action(entity, self.entity_id, depth, plans@, entity_properties@)));
            }
            i = i + 1;
        }
        proof {
            assert(entities@.take(entities.len() as int) =~= entities@);
        }
        result
    }

    /// How good the tallies of `simulator` are for the player (`plan_score`), or nothing when
    /// that does not fit an `i32`.
    fn get_score(&self, simulator: &EntitySimulator) -> (r: Option<i32>)
        ensures
            match r {
                Some(score) => score == plan_score(self.player_id, simulator@.players),
                None => !in_i32(plan_score(self.player_id, simulator@.players)),
            },
    {
        let players = simulator.players();
        let mut total: i128 = 0;
        let mut i: usize = 0;
        while i < players.len()
            invariant
                i <= players.len(),
                total == plan_score(self.player_id, players@.take(i as int)),
                -(i as int) * 0x2_0000_0000 <= total <= (i as int) * 0x2_0000_0000,
            decreases players.len() - i,
        {
            let p = players[i];
            proof {
                assert(players@.take(i + 1).drop_last() =~= players@.take(i as int));
                assert(players@.take(i + 1).last() == p);
                assert(i < 0x1_0000_0000_0000_0000);
            }
            if p.id == self.player_id {
                total = total + (p.score as i128 + p.damage_done as i128 - p.damage_received as i128);
            } else {
                total = total + (p.damage_received as i128 - p.damage_done as i128 - p.score as i128);
            }
            i = i + 1;
        }
        proof {
            assert(players@.take(players.len() as int) =~= players@);
        }
        if total < i32::MIN as i128 || total > i32::MAX as i128 {
            None
        } else {
            Some(total as i32)
        }
    }
}

impl EntityPlanner {
    /// Plays a tick from state `state_index` with the entity told `action_type` and the other
    /// entities doing `other_actions`; the state it comes to joins the search, reached by that
    /// step, and comes back with its score. Nothing is added when the tick cannot be played
    /// (`simulate_ready` fails), its score does not fit an `i32`, or the depth would overflow.
    fn add_transition(
        &mut self,
        action_type: SimulatedEntityActionType,
        other_actions: &Vec<SimulatedEntityAction>,
        state_index: usize,
        entity_properties: &Vec<EntityProperties>,
        rng: &mut StdRng,
    ) -> (r: Option<(i32, usize)>)
        requires
            old(self).tree_ok(),
            state_index < old(self).states.len(),
            entity_properties@ == old(self).setting@.props,
            has_entity(old(self).states@[state_index as int].simulator@.entities, old(self).entity_id),
            candidate_actions(
                old(self).states@[state_index as int].simulator@,
                old(self).setting@.props,
                entity_of(old(self).states@[state_index as int].simulator@, old(self).entity_id),
                old(self).setting@.map_size,
            ).contains(action_type),
            other_actions@ == actions_of_others(
                old(self).states@[state_index as int].simulator@.entities,
                old(self).entity_id,
                old(self).states@[state_index as int].depth as int,
                old(self).setting@.plans,
                old(self).setting@.props,
            ),
        ensures
            final(self).tree_ok(),
            final(self).player_id == old(self).player_id,
            final(self).entity_id == old(self).entity_id,
            final(self).min_depth == old(self).min_depth,
            final(self).max_depth == old(self).max_depth,
            final(self).setting == old(self).setting,
            final(self).taken == old(self).taken,
            final(self).plan == old(self).plan,
            final(self).optimal_final_state_index == old(self).optimal_final_state_index,
            final(self).transitions.len() + 1 == final(self).states.len(),
            forall|i: int| 0 <= i < old(self).states.len() ==> #[trigger] final(self).states@[i] == old(self).states@[i],
            forall|i: int| 0 <= i < old(self).transitions.len() ==> #[trigger] final(self).transitions@[i] == old(self).transitions@[i],
            match r {
                Some((score, i)) => {
                    &&& i == old(self).states.len()
                    &&& final(self).states.len() == old(self).states.len() + 1
                    &&& score == final(self).key(i as int)
                    &&& final(self).transitions@[i - 1].state_index == state_index
                    &&& final(self).transitions@[i - 1].action_type == action_type
                },
                None => {
                    let pre = old(self).step_pre(state_index as int, action_type);
                    &&& final(self).states.len() == old(self).states.len()
                    &&& (!simulate_ready(pre, old(self).setting@.props) || exists|next: SimView|
                        #[trigger] ticked(pre, old(self).setting@.props, next) && !in_i32(plan_score(old(self).player_id, next.players)))
                },
            },
    {
        let ghost parent = self.states@[state_index as int];
        let ghost g = self.setting@;
        let ghost first = seq![SimulatedEntityAction { entity_id: self.entity_id, action_type }];
        let mut simulator = self.states[state_index].simulator.duplicate();
        simulator.add_action(SimulatedEntityAction { entity_id: self.entity_id, action_type });
        proof {
            assert(first + other_actions@.take(0) =~= first);
            assert(parent.simulator@.actions + first =~= parent.simulator@.actions.push(
                SimulatedEntityAction { entity_id: self.entity_id, action_type },
            ));
        }
        let mut k: usize = 0;
        while k < other_actions.len()
            invariant
                k <= other_actions.len(),
                simulator@ == with_actions(parent.simulator@, first + other_actions@.take(k as int)),
            decreases other_actions.len() - k,
        {
            simulator.add_action(other_actions[k]);
            proof {
                assert(first + other_actions@.take(k + 1) =~= (first + other_actions@.take(k as int)).push(other_actions@[k as int]));
                assert(parent.simulator@.actions + (first + other_actions@.take(k + 1)) =~= (parent.simulator@.actions + (first
                    + other_actions@.take(k as int))).push(other_actions@[k as int]));
            }
            k = k + 1;
        }
        proof {
            assert(other_actions@.take(other_actions.len() as int) =~= other_actions@);
        }
        let ghost pre = simulator@;
        proof {
            assert(pre == self.step_pre(state_index as int, action_type));
        }
        if !simulator.can_simulate(entity_properties) {
            return None;
        }
        simulator.simulate(entity_properties, rng);
        proof {
            assert(ticked(pre, g.props, simulator@));
        }
        let score = match self.get_score(&simulator) {
            Some(score) => score,
            None => {
                proof {
                    assert(ticked(pre, g.props, simulator@) && !in_i32(plan_score(self.player_id, simulator@.players)));
                }
                return None;
            },
        };
        let depth = self.states[state_index].depth;
        if depth == usize::MAX {
            return None;
        }
        let ghost old_self = *self;
        let transition_index = self.transitions.len();
        let new_state_index = self.states.len();
        self.transitions.push(PlanTransition { state_index, action_type });
        self.states.push(PlanState { depth: depth + 1, simulator, transition: Some(transition_index) });
        proof {
            assert forall|i: int| 1 <= i < self.states.len() implies {
                let t = #[trigger] self.transitions@[i - 1];
                let parent = self.states@[t.state_index as int];
                let v = parent.simulator@;
                &&& self.states@[i].transition == Some((i - 1) as usize)
                &&& t.state_index < i
                &&& self.states@[i].depth == parent.depth + 1
                &&& has_entity(v.entities, self.entity_id)
                &&& candidate_actions(v, g.props, entity_of(v, self.entity_id), g.map_size).contains(t.action_type)
                &&& ticked(
                    with_actions(
                        v,
                        seq![SimulatedEntityAction { entity_id: self.entity_id, action_type: t.action_type }]
                            + actions_of_others(v.entities, self.entity_id, parent.depth as int, g.plans, g.props),
                    ),
                    g.props,
                    self.states@[i].simulator@,
                )
            } by {
                if i < new_state_index {
                    assert(self.transitions@[i - 1] == old_self.transitions@[i - 1]);
                    assert(self.states@[i] == old_self.states@[i]);
                    let t = self.transitions@[i - 1];
                    assert(self.states@[t.state_index as int] == old_self.states@[t.state_index as int]);
                } else {
                    assert(self.transitions@[i - 1].state_index == state_index);
                    assert(self.states@[state_index as int] == parent);
                }
            }
        }
        Some((score, new_state_index))
    }

    /// Two planners with the same steps give the same chains.
    proof fn lemma_chain_same(self, other: Self, i: int)
        requires
            self.transitions@ == other.transitions@,
        ensures
            self.chain(i) == other.chain(i),
        decreases i,
    {
        if i > 0 && i <= self.transitions.len() {
            let t = self.transitions@[i - 1];
            if t.state_index < i {
                self.lemma_chain_same(other, t.state_index as int);
            }
        }
    }

    /// The steps of the entity that lead to state `state_index`.
    fn reconstruct_sequence(&self, state_index: usize) -> (r: Vec<SimulatedEntityActionType>)
        requires
            self.tree_ok(),
            state_index < self.states.len(),
        ensures
            r@ == self.chain(state_index as int),
    {
        let ghost chain = self.chain(state_index as int);
        let mut backward: Vec<SimulatedEntityActionType> = Vec::new();
        let mut index = state_index;
        while self.states[index].transition.is_some()
            invariant
                self.tree_ok(),
                index < self.states.len(),
                chain == self.chain(state_index as int),
                chain == self.chain(index as int) + backward@.reverse(),
            decreases index,
        {
            let t = match self.states[index].transition {
                Some(t) => t,
                None => 0,
            };
            let transition = &self.transitions[t];
            proof {
                let c = self.chain(index as int);
                assert(t == index - 1);
                assert(c == self.chain(transition.state_index as int).push(transition.action_type));
                assert(backward@.push(transition.action_type).reverse() =~= seq![transition.action_type] + backward@.reverse());
                assert(c + backward@.reverse() =~= self.chain(transition.state_index as int) + backward@.push(
                    transition.action_type,
                ).reverse());
            }
            backward.push(transition.action_type);
            index = transition.state_index;
        }
        proof {
            assert(index == 0);
            assert(self.chain(0) =~= Seq::<SimulatedEntityActionType>::empty());
            assert(chain =~= backward@.reverse());
        }
        let mut forward: Vec<SimulatedEntityActionType> = Vec::new();
        let mut k = backward.len();
        while k > 0
            invariant
                k <= backward.len(),
                forward@ == backward@.reverse().take((backward.len() - k) as int),
            decreases k,
        {
            k = k - 1;
            forward.push(backward[k]);
            proof {
                let n = backward.len() as int;
                assert(backward@.reverse().take(n - k) =~= backward@.reverse().take(n - k - 1).push(backward@[k as int]));
            }
        }
        proof {
            assert(backward@.reverse().take(backward.len() as int) =~= chain);
        }
        forward
    }

    /// The best state among those taken from the queue at least `min_depth` ticks deep: `opt`
    /// with score `max_score`, or none, while every such state scores the least `i32`.
    spec fn best_so_far(self, popped: Seq<bool>, opt: Option<usize>, max_score: i32) -> bool {
        match opt {
            Some(b) => {
                &&& b < self.states.len()
                &&& popped[b as int]
                &&& self.states@[b as int].depth >= self.min_depth
                &&& max_score == self.key(b as int)
                &&& forall|i: int|
                    0 <= i < self.states.len() && #[trigger] popped[i] && self.states@[i].depth >= self.min_depth ==> self.key(i)
                        <= max_score
            },
            None => {
                &&& max_score == i32::MIN
                &&& forall|i: int|
                    0 <= i < self.states.len() && #[trigger] popped[i] && self.states@[i].depth >= self.min_depth ==> self.key(i)
                        == i32::MIN
            },
        }
    }

    /// A state that joins the search, not taken from the queue, keeps what was best so far.
    proof fn lemma_best_kept(self, next: Self, popped: Seq<bool>, opt: Option<usize>, max_score: i32)
        requires
            self.best_so_far(popped, opt, max_score),
            popped.len() == self.states.len(),
            next.states.len() == self.states.len() + 1,
            next.min_depth == self.min_depth,
            next.player_id == self.player_id,
            forall|i: int| 0 <= i < self.states.len() ==> #[trigger] next.states@[i] == self.states@[i],
        ensures
            next.best_so_far(popped.push(false), opt, max_score),
    {
        let q = popped.push(false);
        assert forall|i: int| 0 <= i < self.states.len() implies #[trigger] next.key(i) == self.key(i) && q[i] == popped[i] by {
            assert(next.states@[i] == self.states@[i]);
        }
        match opt {
            Some(b) => {
                assert(next.key(b as int) == self.key(b as int));
                assert(next.states@[b as int] == self.states@[b as int]);
                assert forall|i: int|
                    0 <= i < next.states.len() && #[trigger] q[i] && next.states@[i].depth >= next.min_depth implies next.key(i)
                        <= max_score by {
                    assert(i < self.states.len());
                    assert(next.states@[i] == self.states@[i]);
                }
            },
            None => {
                assert forall|i: int|
                    0 <= i < next.states.len() && #[trigger] q[i] && next.states@[i].depth >= next.min_depth implies next.key(i)
                        == i32::MIN by {
                    assert(i < self.states.len());
                    assert(next.states@[i] == self.states@[i]);
                }
            },
        }
    }
}

impl EntityPlanner {
    /// Searches, best score first, the ticks of `simulator` for the entity's best plan: each
    /// state taken from the queue at least `min_depth` ticks deep is a candidate, and grows no
    /// further once `max_depth` deep; while fewer than `max_transitions` steps were taken, a
    /// state where the entity still stands grows by each step it can be told (its attacks, then
    /// its moves on a map `map_size` cells wide), tried in an order drawn from `rng`, with the
    /// other entities following `plans` or attacking on their own. A state whose simulation or
    /// properties do not fit (`sim_fits`, `properties_fit`) does not grow. Keeps the plan to
    /// the best state found and gives back how many states were taken from the queue.
    pub fn update(
        &mut self,
        map_size: i32,
        simulator: EntitySimulator,
        entity_properties: &Vec<EntityProperties>,
        max_transitions: usize,
        plans: &[(i32, EntityPlan)],
        rng: &mut StdRng,
    ) -> (r: usize)
        requires
            entity_properties.len() == ENTITY_TYPES_COUNT,
        ensures
            final(self).tree_ok(),
            final(self).setting() == (PlanSetting { props: entity_properties@, plans: plans@, map_size: map_size as int }),
            final(self).state_simulator(0)@ == simulator@,
            final(self).spec_player_id() == old(self).spec_player_id(),
            final(self).spec_entity_id() == old(self).spec_entity_id(),
            final(self).spec_min_depth() == old(self).spec_min_depth(),
            final(self).spec_max_depth() == old(self).spec_max_depth(),
            r == final(self).states_len(),
            r == final(self).takes(),
            final(self).best_first(),
            forall|i: int| 0 <= i < final(self).states_len() ==> #[trigger] final(self).expanded(i, max_transitions as int),
            match final(self).optimal() {
                Some(b) => {
                    &&& b < final(self).states_len()
                    &&& final(self).depth_of(b as int) >= final(self).spec_min_depth()
                    &&& final(self).spec_plan().score == final(self).key(b as int)
                    &&& final(self).spec_plan().transitions@ == final(self).chain(b as int)
                    &&& forall|i: int|
                        0 <= i < final(self).states_len() && final(self).depth_of(i) >= final(self).spec_min_depth()
                            ==> final(self).key(i) <= final(self).spec_plan().score
                },
                None => {
                    &&& final(self).spec_plan().transitions@ == Seq::<SimulatedEntityActionType>::empty()
                    &&& final(self).spec_plan().score == 0
                    &&& forall|i: int|
                        0 <= i < final(self).states_len() && final(self).depth_of(i) >= final(self).spec_min_depth()
                            ==> final(self).key(i) == i32::MIN
                },
            },
    {
        let ghost init = simulator@;
        self.states = Vec::new();
        self.transitions = Vec::new();
        self.setting = Ghost(PlanSetting { props: entity_properties@, plans: plans@, map_size: map_size as int });
        self.taken = Ghost(Seq::empty());
        self.states.push(PlanState { depth: 0, simulator, transition: None });
        let mut frontier: Vec<(i32, usize)> = Vec::new();
        frontier.push((0, 0));
        let ghost mut popped: Seq<bool> = seq![false];
        let mut max_score = i32::MIN;
        let mut optimal_final_state_index: Option<usize> = None;
        let mut iteration: usize = 0;
        proof {
            assert(frontier@[0].1 == 0);
            assert(queued(frontier@, 0));
            assert forall|i: int| 0 <= i < self.states.len() implies (#[trigger] popped[i] <==> !queued(frontier@, i)) by {
                assert(i == 0);
            }
        }
        while frontier.len() > 0
            invariant
                self.tree_ok(),
                self.setting@ == (PlanSetting { props: entity_properties@, plans: plans@, map_size: map_size as int }),
                self.states@[0].simulator@ == init,
                self.player_id == old(self).player_id,
                self.entity_id == old(self).entity_id,
                self.min_depth == old(self).min_depth,
                self.max_depth == old(self).max_depth,
                self.plan == old(self).plan,
                self.optimal_final_state_index == old(self).optimal_final_state_index,
                entity_properties.len() == ENTITY_TYPES_COUNT,
                self.transitions.len() <= max_transitions || self.transitions.len() == 0,
                iteration + frontier.len() == self.states.len(),
                queue_ok(frontier@, popped, self.states.len() as int),
                forall|j: int| 0 <= j < frontier.len() ==> (#[trigger] frontier@[j]).0 == self.key(frontier@[j].1 as int),
                self.best_so_far(popped, optimal_final_state_index, max_score),
                forall|i: int| 0 <= i < self.states.len() && #[trigger] popped[i] ==> self.expanded(i, max_transitions as int),
                self.best_first(),
                self.taken@.len() == iteration,
                forall|i: int| 0 <= i < self.states.len() ==> (#[trigger] popped[i] <==> self.taken_before(iteration as int, i)),
            decreases max_transitions - self.transitions.len(), frontier.len(),
        {
            let best = best_entry(&frontier);
            let ghost before = frontier@;
            let ghost popped_before = popped;
            let ghost planner_before = *self;
            let (score, state_index) = frontier.remove(best);
            proof {
                lemma_queue_remove(before, popped, self.states.len() as int, best as int);
                popped = popped.update(state_index as int, true);
            }
            self.taken = Ghost(self.taken@.push((state_index as int, self.states.len() as int)));
            proof {
                let tk = iteration as int;
                planner_before.lemma_best_first_kept(*self);
                assert(self.taken@[tk] == (state_index as int, self.states.len() as int));
                assert forall|i: int| #![trigger self.taken_before(tk, i)] self.taken_before(tk, i) == planner_before.taken_before(tk, i) by {
                    if self.taken_before(tk, i) {
                        let u = choose|u: int| 0 <= u < tk && (#[trigger] self.taken@[u]).0 == i;
                        assert(planner_before.taken@[u].0 == i);
                    }
                    if planner_before.taken_before(tk, i) {
                        let u = choose|u: int| 0 <= u < tk && (#[trigger] planner_before.taken@[u]).0 == i;
                        assert(self.taken@[u].0 == i);
                    }
                }
                assert(!popped_before[state_index as int]);
                assert(!self.taken_before(tk, state_index as int));
                assert forall|i: int| 0 <= i < self.states.len() && !self.taken_before(tk, i) implies #[trigger] self.key(i) <= self.key(state_index as int) by {
                    assert(!popped_before[i]);
                    assert(queued(before, i));
                    let j = choose|j: int| 0 <= j < before.len() && before[j].1 == i;
                    assert(!crate::search::entry_greater(before[j], before[best as int]));
                    assert(before[j].0 == self.key(i));
                }
                assert(self.best_take(tk));
                assert forall|i: int| 0 <= i < self.states.len() implies (#[trigger] popped[i] <==> self.taken_before(tk + 1, i)) by {
                    if self.taken_before(tk + 1, i) && i != state_index {
                        let u = choose|u: int| 0 <= u < tk + 1 && (#[trigger] self.taken@[u]).0 == i;
                        assert(u < tk);
                        assert(self.taken_before(tk, i));
                    }
                    if popped[i] && i != state_index {
                        assert(popped_before[i]);
                        assert(self.taken_before(tk, i));
                        let u = choose|u: int| 0 <= u < tk && (#[trigger] self.taken@[u]).0 == i;
                        assert(self.taken@[u].0 == i);
                    }
                    if i == state_index {
                        assert(self.taken@[tk].0 == i);
                    }
                }
            }
            iteration = iteration + 1;
            let depth = self.states[state_index].depth;
            if depth >= self.min_depth {
                if max_score < score {
                    max_score = score;
                    optimal_final_state_index = Some(state_index);
                }
                if depth >= self.max_depth {
                    continue;
                }
            }
            if self.transitions.len() >= max_transitions {
                continue;
            }
            let current = &self.states[state_index].simulator;
            if !current.fits() || !properties_fit_check(entity_properties) {
                continue;
            }
            let entity = match find_entity_index(current.entities(), self.entity_id) {
                Some(k) => current.entities()[k],
                None => {
                    continue;
                },
            };
            proof {
                assert(small_position(entity.position));
            }
            let other_actions = self.get_other_actions(state_index, entity_properties, plans);
            let mut actions: Vec<SimulatedEntityActionType> = Vec::new();
            add_attack_actions(&entity, &self.states[state_index].simulator, entity_properties, &mut actions);
            add_move_entity_actions(&entity, map_size, &mut actions);
            let ghost candidates = actions@;
            proof {
                assert(candidates =~= candidate_actions(
                    self.states@[state_index as int].simulator@,
                    entity_properties@,
                    entity,
                    map_size as int,
                ));
            }
            shuffle(&mut actions, rng);
            proof {
                actions@.to_multiset_ensures();
                candidates.to_multiset_ensures();
                assert forall|x: SimulatedEntityActionType| actions@.contains(x) implies candidates.contains(x) by {
                    assert(actions@.to_multiset().count(x) > 0);
                    assert(candidates.to_multiset().count(x) > 0);
                }
                assert forall|x: SimulatedEntityActionType| candidates.contains(x) implies actions@.contains(x) by {
                    assert(candidates.to_multiset().count(x) > 0);
                    assert(actions@.to_multiset().count(x) > 0);
                }
            }
            let ghost transitions_before = self.transitions.len();
            let ghost frontier_start = frontier.len();
            let mut a: usize = 0;
            while a < actions.len() && self.transitions.len() < max_transitions
                invariant
                    self.tree_ok(),
                    self.setting@ == (PlanSetting { props: entity_properties@, plans: plans@, map_size: map_size as int }),
                    self.states@[0].simulator@ == init,
                    self.player_id == old(self).player_id,
                    self.entity_id == old(self).entity_id,
                    self.min_depth == old(self).min_depth,
                    self.max_depth == old(self).max_depth,
                    self.plan == old(self).plan,
                    self.optimal_final_state_index == old(self).optimal_final_state_index,
                    entity_properties.len() == ENTITY_TYPES_COUNT,
                    state_index < self.states.len(),
                    has_entity(self.states@[state_index as int].simulator@.entities, self.entity_id),
                    entity == entity_of(self.states@[state_index as int].simulator@, self.entity_id),
                    candidates == candidate_actions(self.states@[state_index as int].simulator@, entity_properties@, entity, map_size as int),
                    forall|x: SimulatedEntityActionType| actions@.contains(x) ==> candidates.contains(x),
                    forall|x: SimulatedEntityActionType| candidates.contains(x) ==> actions@.contains(x),
                    popped[state_index as int],
                    sim_fits(self.states@[state_index as int].simulator@),
                    properties_fit(entity_properties@),
                    forall|k: int| 0 <= k < a ==> self.reached(state_index as int, #[trigger] actions@[k]),
                    forall|i: int| 0 <= i < self.states.len() && #[trigger] popped[i] && i != state_index ==> self.expanded(i, max_transitions as int),
                    other_actions@ == actions_of_others(
                        self.states@[state_index as int].simulator@.entities,
                        self.entity_id,
                        self.states@[state_index as int].depth as int,
                        plans@,
                        entity_properties@,
                    ),
                    a <= actions.len(),
                    transitions_before < max_transitions,
                    transitions_before <= self.transitions.len() <= max_transitions,
                    frontier.len() + transitions_before == frontier_start + self.transitions.len(),
                    iteration + frontier.len() == self.states.len(),
                    queue_ok(frontier@, popped, self.states.len() as int),
                    forall|j: int| 0 <= j < frontier.len() ==> (#[trigger] frontier@[j]).0 == self.key(frontier@[j].1 as int),
                    self.best_so_far(popped, optimal_final_state_index, max_score),
                    self.best_first(),
                    self.taken@.len() == iteration,
                    forall|i: int| 0 <= i < self.states.len() ==> (#[trigger] popped[i] <==> self.taken_before(iteration as int, i)),
                decreases actions.len() - a,
            {
                let action_type = actions[a];
                proof {
                    assert(actions@.contains(action_type));
                }
                let ghost old_self = *self;
                let ghost old_frontier = frontier@;
                let ghost old_popped = popped;
                let added = self.add_transition(action_type, &other_actions, state_index, entity_properties, rng);
                proof {
                    old_self.lemma_best_first_kept(*self);
                    assert forall|i: int| #![trigger self.taken_before(iteration as int, i)] self.taken_before(iteration as int, i) == old_self.taken_before(iteration as int, i) by {}
                    if added is Some {
                        let j = self.states.len() - 1;
                        assert(self.transitions@[j - 1].state_index == state_index && self.transitions@[j - 1].action_type == action_type);
                    } else {
                        assert(old_self.step_pre(state_index as int, action_type) == self.step_pre(state_index as int, action_type)) by {
                            assert(self.states@[state_index as int] == old_self.states@[state_index as int]);
                        }
                    }
                    assert(self.reached(state_index as int, action_type));
                    assert forall|k: int| 0 <= k < a + 1 implies self.reached(state_index as int, #[trigger] actions@[k]) by {
                        if k < a {
                            old_self.lemma_reached_kept(*self, state_index as int, actions@[k]);
                        }
                    }
                    assert forall|i: int| 0 <= i < old_self.states.len() && #[trigger] old_popped[i] && i != state_index implies self.expanded(
                        i,
                        max_transitions as int,
                    ) by {
                        old_self.lemma_expanded_kept(*self, i, max_transitions as int);
                    }
                }
                match added {
                    Some(entry) => {
                        frontier.push(entry);
                        proof {
                            lemma_queue_push(old_frontier, popped, old_self.states.len() as int, entry);
                            old_self.lemma_best_kept(*self, popped, optimal_final_state_index, max_score);
                            popped = popped.push(false);
                            assert forall|i: int| 0 <= i < self.states.len() implies (#[trigger] popped[i] <==> self.taken_before(iteration as int, i)) by {
                                if i == old_self.states.len() {
                                    if self.taken_before(iteration as int, i) {
                                        let u = choose|u: int| 0 <= u < iteration && (#[trigger] self.taken@[u]).0 == i;
                                        assert(old_self.best_take(u));
                                    }
                                } else {
                                    assert(popped[i] == old_popped[i]);
                                }
                            }
                            assert forall|j: int| 0 <= j < frontier.len() implies (#[trigger] frontier@[j]).0 == self.key(frontier@[j].1 as int) by {
                                if j < old_frontier.len() {
                                    assert(frontier@[j] == old_frontier[j]);
                                    assert(self.states@[frontier@[j].1 as int] == old_self.states@[frontier@[j].1 as int]);
                                }
                            }
                        }
                    },
                    None => {
                        proof {
                            assert(self.states@ =~= old_self.states@);
                        }
                    },
                }
                a = a + 1;
            }
            proof {
                if self.transitions.len() < max_transitions {
                    assert forall|x: SimulatedEntityActionType|
                        #[trigger] candidate_actions(
                            self.states@[state_index as int].simulator@,
                            entity_properties@,
                            entity_of(self.states@[state_index as int].simulator@, self.entity_id),
                            map_size as int,
                        ).contains(x) implies self.reached(state_index as int, x) by {
                        assert(actions@.contains(x));
                        let k = choose|k: int| 0 <= k < actions@.len() && actions@[k] == x;
                    }
                }
                assert(self.expanded(state_index as int, max_transitions as int));
            }
            assert(self.transitions.len() > transitions_before || frontier.len() == frontier_start);
        }
        let ghost looped = *self;
        self.optimal_final_state_index = optimal_final_state_index;
        proof {
            assert forall|i: int| 0 <= i < self.states.len() implies #[trigger] popped[i] by {
                if !popped[i] {
                    assert(queued(frontier@, i));
                    let j = choose|j: int| 0 <= j < frontier@.len() && frontier@[j].1 == i;
                    assert(false);
                }
            }
        }
        let ghost searched = *self;
        self.plan = match optimal_final_state_index {
            Some(b) => {
                let transitions = self.reconstruct_sequence(b);
                EntityPlan { score: max_score, transitions }
            },
            None => EntityPlan::default(),
        };
        proof {
            looped.lemma_best_first_kept(*self);
            if let Some(b) = optimal_final_state_index {
                searched.lemma_chain_same(*self, b as int);
            }
            assert forall|i: int| 0 <= i < self.states_len() implies #[trigger] self.expanded(i, max_transitions as int) by {
                assert(popped[i]);
                searched.lemma_expanded_kept(*self, i, max_transitions as int);
            }
            assert forall|i: int| 0 <= i < self.states_len() && #[trigger] self.depth_of(i) >= self.spec_min_depth() implies (match optimal_final_state_index {
                Some(b) => self.key(i) <= self.spec_plan().score,
                None => self.key(i) == i32::MIN,
            }) by {
                assert(popped[i]);
                assert(self.states@[i] == searched.states@[i]);
            }
        }
        iteration
    }
}

} // verus!
