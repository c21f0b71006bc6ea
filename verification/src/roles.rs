use vstd::prelude::*;
use std::collections::HashMap;
use crate::entity_planner::EntityPlanner;
use crate::entity_simulator::SimulatedEntityActionType;
use crate::entity_type::{spec_type_index, EntityType};
use crate::vec2::{in_i32, Vec2i};
use crate::groups::Group;
use crate::vec2::manhattan;
use crate::world::{last_index_of, square_center, Entity, World};

verus! {

broadcast use vstd::std_specs::hash::group_hash_axioms;

/// What an entity of the bot is busy with; `Idle` when nothing.
#[derive(Debug, Clone, Copy, Eq, PartialEq, Structural)]
pub enum Role {
    Idle,
    Harvester { resource_id: i32 },
    UnitBuilder,
    BuildingBuilder { position: Vec2i, entity_type: EntityType },
    BuildingRepairer { building_id: i32, need_resources: bool },
    GroupMember { group_id: u32 },
    GroupSupplier { group_id: u32 },
    Cleaner { resource_id: i32 },
    Fighter,
    Scout,
}

impl Role {
    /// A role held for one turn only: building a unit.
    pub fn is_temporary(&self) -> (r: bool)
        ensures
            r == (*self is UnitBuilder),
    {
        match self {
            Role::UnitBuilder => true,
            _ => false,
        }
    }
}


/// Where an entity is told to move.
#[derive(Debug, Clone, Copy, PartialEq, Eq)]
pub struct MoveAction {
    pub target: Vec2i,
    pub find_closest_position: bool,
    pub break_through: bool,
}

/// What a base is told to build, and where.
#[derive(Debug, Clone, Copy, PartialEq, Eq)]
pub struct BuildAction {
    pub entity_type: EntityType,
    pub position: Vec2i,
}

/// An attack on whatever of the kinds `valid_targets` (any kind when empty) comes within
/// `pathfind_range`.
#[derive(Debug, Clone, PartialEq, Eq)]
pub struct AutoAttack {
    pub pathfind_range: i32,
    pub valid_targets: Vec<EntityType>,
}

/// An attack on one entity, or an automatic one.
#[derive(Debug, Clone, PartialEq, Eq)]
pub struct AttackAction {
    pub target: Option<i32>,
    pub auto_attack: Option<AutoAttack>,
}

/// A repair of one entity.
#[derive(Debug, Clone, Copy, PartialEq, Eq)]
pub struct RepairAction {
    pub target: i32,
}

/// What one entity is told to do this tick.
#[derive(Debug, Clone, PartialEq, Eq)]
pub struct EntityAction {
    pub move_action: Option<MoveAction>,
    pub build_action: Option<BuildAction>,
    pub attack_action: Option<AttackAction>,
    pub repair_action: Option<RepairAction>,
}

/// Whether the action tells the entity nothing.
pub open spec fn is_idle(a: EntityAction) -> bool {
    a.move_action is None && a.build_action is None && a.attack_action is None && a.repair_action is None
}

/// Whether `a` is an automatic attack, with no target, within `range` on the kinds `targets`.
pub open spec fn is_auto_attack(a: Option<AttackAction>, range: int, targets: Seq<EntityType>) -> bool {
    match a {
        Some(x) => x.target is None && match x.auto_attack {
            Some(aa) => aa.pathfind_range == range && aa.valid_targets@ == targets,
            None => false,
        },
        None => false,
    }
}

/// The kinds an armed entity without a role attacks by default.
pub open spec fn default_targets() -> Seq<EntityType> {
    seq![
        EntityType::BuilderUnit,
        EntityType::MeleeUnit,
        EntityType::RangedUnit,
        EntityType::Turret,
        EntityType::House,
        EntityType::BuilderBase,
        EntityType::MeleeBase,
        EntityType::RangedBase,
        EntityType::Wall,
    ]
}

/// Whether `r` is the action that carries out the planned step `a` of entity `e`.
pub open spec fn is_action_for(r: EntityAction, e: Entity, a: SimulatedEntityActionType, w: World) -> bool {
    match a {
        SimulatedEntityActionType::Idle => is_idle(r),
        SimulatedEntityActionType::Attack { target } => {
            &&& r.attack_action == Some(AttackAction { target: Some(target), auto_attack: None })
            &&& r.move_action is None && r.build_action is None && r.repair_action is None
        },
        SimulatedEntityActionType::MoveEntity { direction } => {
            &&& r.move_action == Some(
                MoveAction {
                    target: Vec2i { x: (e.position.x + direction.x) as i32, y: (e.position.y + direction.y) as i32 },
                    find_closest_position: false,
                    break_through: false,
                },
            )
            &&& r.attack_action is None && r.build_action is None && r.repair_action is None
        },
        SimulatedEntityActionType::AutoAttack => {
            &&& is_auto_attack(r.attack_action, w.spec_properties()[spec_type_index(e.entity_type)].sight_range as int, Seq::empty())
            &&& r.move_action is None && r.build_action is None && r.repair_action is None
        },
    }
}

/// An action that tells the entity nothing.
pub fn get_idle_action() -> (r: EntityAction)
    ensures
        is_idle(r),
{
    EntityAction { attack_action: None, build_action: None, repair_action: None, move_action: None }
}

/// The action that carries out the planned step `action_type` of `entity`.
pub fn make_action(entity: &Entity, action_type: &SimulatedEntityActionType, world: &World) -> (r: EntityAction)
    requires
        world.wf(),
        action_type matches SimulatedEntityActionType::MoveEntity { direction } ==> in_i32(entity.position.x + direction.x)
            && in_i32(entity.position.y + direction.y),
    ensures
        is_action_for(r, *entity, *action_type, *world),
{
    match action_type {
        SimulatedEntityActionType::Idle => get_idle_action(),
        SimulatedEntityActionType::Attack { target } => EntityAction {
            attack_action: Some(AttackAction { target: Some(*target), auto_attack: None }),
            build_action: None,
            repair_action: None,
            move_action: None,
        },
        SimulatedEntityActionType::MoveEntity { direction } => EntityAction {
            attack_action: None,
            build_action: None,
            repair_action: None,
            move_action: Some(MoveAction { target: entity.position + *direction, find_closest_position: false, break_through: false }),
        },
        SimulatedEntityActionType::AutoAttack => EntityAction {
            attack_action: Some(
                AttackAction {
                    target: None,
                    auto_attack: Some(
                        AutoAttack {
                            pathfind_range: world.get_entity_properties(&entity.entity_type).sight_range,
                            valid_targets: Vec::new(),
                        },
                    ),
                },
            ),
            build_action: None,
            repair_action: None,
            move_action: None,
        },
    }
}

/// What an entity without a role does: an armed one attacks whatever of the default kinds
/// comes within its sight; any other does nothing.
pub fn get_default_action(entity: &Entity, world: &World) -> (r: EntityAction)
    requires
        world.wf(),
    ensures
        ({
            let p = world.spec_properties()[spec_type_index(entity.entity_type)];
            if p.attack is Some {
                &&& is_auto_attack(r.attack_action, p.sight_range as int, default_targets())
                &&& r.move_action is None && r.build_action is None && r.repair_action is None
            } else {
                is_idle(r)
            }
        }),
{
    let properties = world.get_entity_properties(&entity.entity_type);
    if properties.attack.is_some() {
        let mut valid_targets: Vec<EntityType> = Vec::new();
        valid_targets.push(EntityType::BuilderUnit);
        valid_targets.push(EntityType::MeleeUnit);
        valid_targets.push(EntityType::RangedUnit);
        valid_targets.push(EntityType::Turret);
        valid_targets.push(EntityType::House);
        valid_targets.push(EntityType::BuilderBase);
        valid_targets.push(EntityType::MeleeBase);
        valid_targets.push(EntityType::RangedBase);
        valid_targets.push(EntityType::Wall);
        assert(valid_targets@ =~= default_targets());
        return EntityAction {
            attack_action: Some(
                AttackAction {
                    target: None,
                    auto_attack: Some(AutoAttack { pathfind_range: properties.sight_range, valid_targets }),
                },
            ),
            build_action: None,
            repair_action: None,
            move_action: None,
        };
    }
    get_idle_action()
}

/// What a harvesting builder does: it walks to its resource, breaking through and settling for
/// the closest cell; it attacks the resource (or a builder in the way) anywhere on the map, or,
/// when its cell is threatened, only builders within its attack range.
pub fn harvest_resource(entity: &Entity, world: &World, resource_id: i32) -> (r: EntityAction)
    requires
        world.wf(),
        0 <= entity.position.x,
        0 <= entity.position.y,
        entity.position.x + entity.position.y * world.spec_map_size() < world.spec_attacked().len(),
        last_index_of(world.spec_entities(), resource_id) >= 0,
        world.spec_attacked()[entity.position.x + entity.position.y * world.spec_map_size()]
            ==> world.spec_properties()[3].attack is Some,
        !world.spec_attacked()[entity.position.x + entity.position.y * world.spec_map_size()]
            ==> in_i32(2 * world.spec_map_size()),
    ensures
        ({
            let attacked = world.spec_attacked()[entity.position.x + entity.position.y * world.spec_map_size()];
            let resource = world.spec_entities()[last_index_of(world.spec_entities(), resource_id)];
            &&& if attacked {
                is_auto_attack(
                    r.attack_action,
                    world.spec_properties()[3].attack.unwrap().attack_range as int,
                    seq![EntityType::BuilderUnit],
                )
            } else {
                match r.attack_action {
                    Some(a) => a.target == Some(resource_id) && match a.auto_attack {
                        Some(aa) => aa.pathfind_range == 2 * world.spec_map_size() && aa.valid_targets@ == seq![
                            EntityType::BuilderUnit,
                            EntityType::Resource,
                        ],
                        None => false,
                    },
                    None => false,
                }
            }
            &&& r.move_action == Some(MoveAction { target: resource.position, break_through: true, find_closest_position: true })
            &&& r.build_action is None
            &&& r.repair_action is None
        }),
{
    let builder_properties = world.get_entity_properties(&EntityType::BuilderUnit);
    let attack_action = if world.is_attacked_by_opponents(entity.position) {
        let range = builder_properties.attack.unwrap().attack_range;
        let mut valid_targets: Vec<EntityType> = Vec::new();
        valid_targets.push(EntityType::BuilderUnit);
        assert(valid_targets@ =~= seq![EntityType::BuilderUnit]);
        AttackAction { target: None, auto_attack: Some(AutoAttack { pathfind_range: range, valid_targets }) }
    } else {
        let mut valid_targets: Vec<EntityType> = Vec::new();
        valid_targets.push(EntityType::BuilderUnit);
        valid_targets.push(EntityType::Resource);
        assert(valid_targets@ =~= seq![EntityType::BuilderUnit, EntityType::Resource]);
        AttackAction {
            target: Some(resource_id),
            auto_attack: Some(AutoAttack { pathfind_range: 2 * world.map_size(), valid_targets }),
        }
    };
    let resource = world.get_entity(resource_id);
    EntityAction {
        attack_action: Some(attack_action),
        build_action: None,
        repair_action: None,
        move_action: Some(MoveAction { target: resource.position, break_through: true, find_closest_position: true }),
    }
}

/// The action of the first step of the entity's plan, when it has a planner with a plan.
pub fn get_action_by_plan(entity: &Entity, world: &World, entity_planners: &HashMap<i32, EntityPlanner>) -> (r: Option<EntityAction>)
    requires
        world.wf(),
        entity_planners@.contains_key(entity.id) && entity_planners@[entity.id].spec_plan().transitions@.len() > 0
            ==> (entity_planners@[entity.id].spec_plan().transitions@[0] matches SimulatedEntityActionType::MoveEntity { direction }
            ==> in_i32(entity.position.x + direction.x) && in_i32(entity.position.y + direction.y)),
    ensures
        match r {
            Some(a) => entity_planners@.contains_key(entity.id) && entity_planners@[entity.id].spec_plan().transitions@.len() > 0
                && is_action_for(a, *entity, entity_planners@[entity.id].spec_plan().transitions@[0], *world),
            None => !(entity_planners@.contains_key(entity.id) && entity_planners@[entity.id].spec_plan().transitions@.len() > 0),
        },
{
    match entity_planners.get(&entity.id) {
        Some(planner) => {
            let plan = planner.plan();
            if plan.transitions.len() > 0 {
                Some(make_action(entity, &plan.transitions[0], world))
            } else {
                None
            }
        },
        None => None,
    }
}

/// What a fighting unit does: the first step of its plan when it has one; otherwise it attacks
/// anything within its sight and heads for its own target, else for `default_target`, breaking
/// through and settling for the closest cell.
pub fn fight(
    entity: &Entity,
    world: &World,
    default_target: Option<Vec2i>,
    entity_targets: &HashMap<i32, Vec2i>,
    entity_planners: &HashMap<i32, EntityPlanner>,
) -> (r: EntityAction)
    requires
        world.wf(),
        entity_planners@.contains_key(entity.id) && entity_planners@[entity.id].spec_plan().transitions@.len() > 0
            ==> (entity_planners@[entity.id].spec_plan().transitions@[0] matches SimulatedEntityActionType::MoveEntity { direction }
            ==> in_i32(entity.position.x + direction.x) && in_i32(entity.position.y + direction.y)),
    ensures
        if entity_planners@.contains_key(entity.id) && entity_planners@[entity.id].spec_plan().transitions@.len() > 0 {
            is_action_for(r, *entity, entity_planners@[entity.id].spec_plan().transitions@[0], *world)
        } else {
            &&& is_auto_attack(r.attack_action, world.spec_properties()[spec_type_index(entity.entity_type)].sight_range as int, Seq::empty())
            &&& r.build_action is None
            &&& r.repair_action is None
            &&& r.move_action == match (if entity_targets@.contains_key(entity.id) { Some(entity_targets@[entity.id]) } else { default_target }) {
                Some(p) => Some(MoveAction { target: p, find_closest_position: true, break_through: true }),
                None => None,
            }
        },
{
    match get_action_by_plan(entity, world, entity_planners) {
        Some(action) => {
            return action;
        },
        None => {},
    }
    let target = match entity_targets.get(&entity.id) {
        Some(p) => Some(*p),
        None => default_target,
    };
    EntityAction {
        attack_action: Some(
            AttackAction {
                target: None,
                auto_attack: Some(
                    AutoAttack { pathfind_range: world.get_entity_properties(&entity.entity_type).sight_range, valid_targets: Vec::new() },
                ),
            },
        ),
        build_action: None,
        repair_action: None,
        move_action: match target {
            Some(position) => Some(MoveAction { target: position, find_closest_position: true, break_through: true }),
            None => None,
        },
    }
}


/// Whether a unit that can repair mends itself: the group lists it, the world's entity with its
/// id is damaged, and that entity's centre lies within the unit's sight of the unit's centre.
pub open spec fn mends_itself(unit: Entity, world: World, group: Group) -> bool {
    let p = world.spec_properties()[spec_type_index(unit.entity_type)];
    let other = world.spec_entities()[last_index_of(world.spec_entities(), unit.id)];
    let q = world.spec_properties()[spec_type_index(other.entity_type)];
    &&& p.repair is Some
    &&& exists|j: int| 0 <= j < group.spec_units().len() && #[trigger] group.spec_units()[j].0 == unit.id
    &&& q.max_health - other.health != 0
    &&& manhattan(square_center(other.position, q.size as int), square_center(unit.position, p.size as int)) <= p.sight_range
}

/// Whether the computations of `assist_group` stay within the range of `i32`.
pub open spec fn assist_fits(unit: Entity, world: World, group: Group) -> bool {
    let p = world.spec_properties()[spec_type_index(unit.entity_type)];
    let other = world.spec_entities()[last_index_of(world.spec_entities(), unit.id)];
    let q = world.spec_properties()[spec_type_index(other.entity_type)];
    &&& in_i32(unit.position.x + crate::vec2::trunc_div(p.size as int, 2))
    &&& in_i32(unit.position.y + crate::vec2::trunc_div(p.size as int, 2))
    &&& (p.repair is Some && (exists|j: int| 0 <= j < group.spec_units().len() && #[trigger] group.spec_units()[j].0 == unit.id)
        ==> {
        &&& last_index_of(world.spec_entities(), unit.id) >= 0
        &&& in_i32(q.max_health - other.health)
        &&& in_i32(other.position.x + crate::vec2::trunc_div(q.size as int, 2))
        &&& in_i32(other.position.y + crate::vec2::trunc_div(q.size as int, 2))
        &&& manhattan(square_center(other.position, q.size as int), square_center(unit.position, p.size as int)) <= i32::MAX
    })
}

/// What a member of a group does: a unit that can repair mends itself when damaged
/// (`mends_itself`), walking to its own cell; otherwise it fights toward the group's target.
pub fn assist_group(
    unit: &Entity,
    world: &World,
    group: &Group,
    entity_targets: &HashMap<i32, Vec2i>,
    entity_planners: &HashMap<i32, EntityPlanner>,
) -> (r: EntityAction)
    requires
        world.wf(),
        assist_fits(*unit, *world, *group),
        !mends_itself(*unit, *world, *group) ==> (entity_planners@.contains_key(unit.id)
            && entity_planners@[unit.id].spec_plan().transitions@.len() > 0 ==> (entity_planners@[unit.id].spec_plan().transitions@[0] matches SimulatedEntityActionType::MoveEntity { direction }
            ==> in_i32(unit.position.x + direction.x) && in_i32(unit.position.y + direction.y))),
    ensures
        if mends_itself(*unit, *world, *group) {
            &&& r.repair_action == Some(RepairAction { target: unit.id })
            &&& r.move_action == Some(
                MoveAction {
                    target: world.spec_entities()[last_index_of(world.spec_entities(), unit.id)].position,
                    find_closest_position: true,
                    break_through: false,
                },
            )
            &&& r.attack_action is None
            &&& r.build_action is None
        } else if entity_planners@.contains_key(unit.id) && entity_planners@[unit.id].spec_plan().transitions@.len() > 0 {
            is_action_for(r, *unit, entity_planners@[unit.id].spec_plan().transitions@[0], *world)
        } else {
            &&& is_auto_attack(r.attack_action, world.spec_properties()[spec_type_index(unit.entity_type)].sight_range as int, Seq::empty())
            &&& r.build_action is None
            &&& r.repair_action is None
            &&& r.move_action == match (if entity_targets@.contains_key(unit.id) { Some(entity_targets@[unit.id]) } else { group.spec_target() }) {
                Some(p) => Some(MoveAction { target: p, find_closest_position: true, break_through: true }),
                None => None,
            }
        },
{
    let properties = world.get_entity_properties(&unit.entity_type);
    let half = properties.size / 2;
    let unit_center = unit.position + Vec2i::both(half);
    let mut repair: Option<RepairAction> = None;
    if properties.repair.is_some() {
        let units = group.units();
        let mut j: usize = 0;
        while j < units.len()
            invariant
                world.wf(),
                units@ == group.spec_units(),
                assist_fits(*unit, *world, *group),
                properties.repair is Some,
                *properties == world.spec_properties()[spec_type_index(unit.entity_type)],
                unit_center == square_center(unit.position, properties.size as int),
                j <= units.len(),
                repair is None ==> forall|i: int| 0 <= i < j ==> units@[i].0 != unit.id || !mends_itself(*unit, *world, *group),
                repair matches Some(x) ==> x.target == unit.id && mends_itself(*unit, *world, *group),
            decreases units.len() - j,
        {
            let unit_id = units[j].0;
            if unit_id == unit.id {
                proof {
                    assert(group.spec_units()[j as int].0 == unit.id);
                }
                let other = world.get_entity(unit_id);
                let other_properties = world.get_entity_properties(&other.entity_type);
                let damage = other_properties.max_health - other.health;
                let other_half = other_properties.size / 2;
                let distance = (other.position + Vec2i::both(other_half)).distance(unit_center);
                if damage != 0 && distance <= properties.sight_range {
                    repair = Some(RepairAction { target: unit_id });
                }
            }
            j = j + 1;
        }
    }
    match repair {
        Some(action) => {
            let target = world.get_entity(action.target).position;
            EntityAction {
                attack_action: None,
                build_action: None,
                move_action: Some(MoveAction { target, find_closest_position: true, break_through: false }),
                repair_action: Some(action),
            }
        },
        None => {
            proof {
                if mends_itself(*unit, *world, *group) {
                    let j = choose|j: int| 0 <= j < group.spec_units().len() && #[trigger] group.spec_units()[j].0 == unit.id;
                    assert(group.spec_units()[j].0 == unit.id);
                }
            }
            fight(unit, world, group.target(), entity_targets, entity_planners)
        },
    }
}

} // verus!
