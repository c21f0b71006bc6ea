use vstd::prelude::*;

verus! {

/// The kinds of entities of the game.
#[derive(Debug, Copy, Clone, PartialEq, Eq, Hash, PartialOrd, Ord, Structural)]
pub enum EntityType {
    Wall,
    House,
    BuilderBase,
    BuilderUnit,
    MeleeBase,
    MeleeUnit,
    RangedBase,
    RangedUnit,
    Resource,
    Turret,
}

/// The position of a kind in the game's list of kinds, by which entity properties are indexed.
pub open spec fn spec_type_index(t: EntityType) -> int {
    match t {
        EntityType::Wall => 0,
        EntityType::House => 1,
        EntityType::BuilderBase => 2,
        EntityType::BuilderUnit => 3,
        EntityType::MeleeBase => 4,
        EntityType::MeleeUnit => 5,
        EntityType::RangedBase => 6,
        EntityType::RangedUnit => 7,
        EntityType::Resource => 8,
        EntityType::Turret => 9,
    }
}

/// Number of kinds of entities.
pub const ENTITY_TYPES_COUNT: usize = 10;

impl EntityType {
    pub fn index(&self) -> (r: usize)
        ensures
            r == spec_type_index(*self),
            r < ENTITY_TYPES_COUNT,
    {
        match self {
            EntityType::Wall => 0,
            EntityType::House => 1,
            EntityType::BuilderBase => 2,
            EntityType::BuilderUnit => 3,
            EntityType::MeleeBase => 4,
            EntityType::MeleeUnit => 5,
            EntityType::RangedBase => 6,
            EntityType::RangedUnit => 7,
            EntityType::Resource => 8,
            EntityType::Turret => 9,
        }
    }
}

/// How an entity attacks.
#[derive(Debug, Copy, Clone, PartialEq, Eq)]
pub struct AttackProperties {
    pub attack_range: i32,
    pub damage: i32,
    pub collect_resource: bool,
}

/// How an entity repairs.
#[derive(Debug, Copy, Clone, PartialEq, Eq)]
pub struct RepairProperties {
    pub power: i32,
}

/// What the game tells of a kind of entity.
#[derive(Debug, Clone, Copy, PartialEq, Eq)]
pub struct EntityProperties {
    pub size: i32,
    pub build_score: i32,
    pub destroy_score: i32,
    pub can_move: bool,
    pub population_use: i32,
    pub population_provide: i32,
    pub max_health: i32,
    pub initial_cost: i32,
    pub sight_range: i32,
    pub resource_per_health: i32,
    pub build: Option<EntityType>,
    pub attack: Option<AttackProperties>,
    pub repair: Option<RepairProperties>,
}

/// The properties of a kind the game told nothing of: all zero, none, and `false`.
pub open spec fn blank_properties() -> EntityProperties {
    EntityProperties {
        size: 0,
        build_score: 0,
        destroy_score: 0,
        can_move: false,
        population_use: 0,
        population_provide: 0,
        max_health: 0,
        initial_cost: 0,
        sight_range: 0,
        resource_per_health: 0,
        build: None,
        attack: None,
        repair: None,
    }
}

impl Default for EntityProperties {
    fn default() -> (r: Self)
        ensures
            r == blank_properties(),
    {
        EntityProperties {
            size: 0,
            build_score: 0,
            destroy_score: 0,
            can_move: false,
            population_use: 0,
            population_provide: 0,
            max_health: 0,
            initial_cost: 0,
            sight_range: 0,
            resource_per_health: 0,
            build: None,
            attack: None,
            repair: None,
        }
    }
}

pub open spec fn spec_is_base(t: EntityType) -> bool {
    t == EntityType::BuilderBase || t == EntityType::MeleeBase || t == EntityType::RangedBase
}

pub open spec fn spec_is_unit(t: EntityType) -> bool {
    t == EntityType::BuilderUnit || t == EntityType::MeleeUnit || t == EntityType::RangedUnit
}

pub open spec fn spec_is_protected(t: EntityType) -> bool {
    t == EntityType::Turret || t == EntityType::House || spec_is_base(t) || t == EntityType::BuilderUnit
}

/// Whether the kind is a base that produces units.
pub fn is_entity_type_base(entity_type: &EntityType) -> (r: bool)
    ensures
        r == spec_is_base(*entity_type),
{
    match entity_type {
        EntityType::BuilderBase => true,
        EntityType::MeleeBase => true,
        EntityType::RangedBase => true,
        _ => false,
    }
}

/// Whether the kind is a unit.
pub fn is_entity_type_unit(entity_type: &EntityType) -> (r: bool)
    ensures
        r == spec_is_unit(*entity_type),
{
    match entity_type {
        EntityType::BuilderUnit => true,
        EntityType::MeleeUnit => true,
        EntityType::RangedUnit => true,
        _ => false,
    }
}

/// Whether the kind belongs to what the player's perimeter protects.
pub fn is_protected_entity_type(entity_type: &EntityType) -> (r: bool)
    ensures
        r == spec_is_protected(*entity_type),
{
    match entity_type {
        EntityType::Turret => true,
        EntityType::House => true,
        EntityType::BuilderBase => true,
        EntityType::MeleeBase => true,
        EntityType::RangedBase => true,
        EntityType::BuilderUnit => true,
        _ => false,
    }
}


} // verus!
