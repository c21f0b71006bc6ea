use std::collections::HashMap;

use codecraft_bot::entity_planner::EntityPlanner;
use codecraft_bot::entity_simulator::{EntitySimulator, SimulatedEntityActionType};
use codecraft_bot::entity_type::{AttackProperties, EntityProperties, EntityType, RepairProperties};
use codecraft_bot::groups::{Group, GroupState};
use codecraft_bot::map::Tile;
use codecraft_bot::roles::{
    assist_group, fight, get_action_by_plan, get_default_action, get_idle_action, harvest_resource, make_action,
    AttackAction, AutoAttack, MoveAction, RepairAction, Role,
};
use codecraft_bot::tasks::{build_builders, BuildBuildingTask, harvest_resources, repair_buildings, BuildUnitsTask, ClearAreaTask, GatherGroupTask, TaskStatus};
use codecraft_bot::vec2::Vec2i;
use codecraft_bot::world::{Entity, Player, PlayerView, World};

fn kinds() -> Vec<EntityType> {
    vec![
        EntityType::Wall,
        EntityType::House,
        EntityType::BuilderBase,
        EntityType::BuilderUnit,
        EntityType::MeleeBase,
        EntityType::MeleeUnit,
        EntityType::RangedBase,
        EntityType::RangedUnit,
        EntityType::Resource,
        EntityType::Turret,
    ]
}

fn kind(size: i32, can_move: bool, cost: i32, sight_range: i32) -> EntityProperties {
    EntityProperties {
        size,
        build_score: 0,
        destroy_score: 0,
        can_move,
        population_use: if can_move { 1 } else { 0 },
        population_provide: 0,
        max_health: 10,
        initial_cost: cost,
        sight_range,
        resource_per_health: 0,
        build: None,
        attack: None,
        repair: None,
    }
}

fn attack(attack_range: i32, damage: i32) -> Option<AttackProperties> {
    Some(AttackProperties { attack_range, damage, collect_resource: false })
}

fn properties() -> Vec<(EntityType, EntityProperties)> {
    let mut house = kind(3, false, 50, 5);
    house.population_provide = 5;
    let mut builder_base = kind(5, false, 500, 5);
    builder_base.population_provide = 5;
    builder_base.build = Some(EntityType::BuilderUnit);
    let mut builder = kind(1, true, 10, 10);
    builder.attack = attack(1, 1);
    let mut melee_base = kind(5, false, 500, 5);
    melee_base.build = Some(EntityType::MeleeUnit);
    let mut melee = kind(1, true, 20, 10);
    melee.attack = attack(1, 5);
    let mut ranged_base = kind(5, false, 500, 5);
    ranged_base.build = Some(EntityType::RangedUnit);
    let mut ranged = kind(1, true, 30, 10);
    ranged.attack = attack(5, 5);
    let mut turret = kind(2, false, 50, 5);
    turret.attack = attack(5, 5);
    let all = vec![
        kind(1, false, 10, 0),
        house,
        builder_base,
        builder,
        melee_base,
        melee,
        ranged_base,
        ranged,
        kind(1, false, 0, 0),
        turret,
    ];
    kinds().into_iter().zip(all.into_iter()).collect()
}

fn entity(id: i32, player_id: Option<i32>, entity_type: EntityType, x: i32, y: i32) -> Entity {
    Entity { id, player_id, entity_type, position: Vec2i::new(x, y), health: 10, active: true }
}

fn view(fog_of_war: bool, entities: Vec<Entity>) -> PlayerView {
    PlayerView {
        my_id: 1,
        map_size: 20,
        fog_of_war,
        entity_properties: properties(),
        max_tick_count: 1000,
        max_pathfind_nodes: 1000,
        current_tick: 3,
        players: vec![Player { id: 1, score: 0, resource: 100 }, Player { id: 2, score: 0, resource: 100 }],
        entities,
    }
}

fn base_entities() -> Vec<Entity> {
    vec![
        entity(1, Some(1), EntityType::BuilderUnit, 3, 15),
        entity(2, Some(1), EntityType::BuilderUnit, 4, 15),
        entity(3, Some(1), EntityType::House, 0, 17),
        entity(4, Some(1), EntityType::BuilderBase, 5, 5),
        entity(5, Some(2), EntityType::RangedUnit, 15, 3),
        entity(6, None, EntityType::Resource, 10, 10),
    ]
}

fn updated_world() -> World {
    let v = view(false, base_entities());
    let mut world = World::new(&v);
    world.update(&v);
    world
}

fn ids(entities: &[Entity]) -> Vec<i32> {
    entities.iter().map(|v| v.id).collect()
}

#[test]
fn world_starts_at_corner_of_first_builder() {
    let world = World::new(&view(false, base_entities()));
    assert_eq!(world.start_position(), Vec2i::new(0, 19));
    assert_eq!(world.grow_direction(), Vec2i::new(1, -1));
    assert_eq!(world.my_id(), 1);
    assert_eq!(world.map_size(), 20);
    assert_eq!(world.current_tick(), 3);
    assert!(world.players().is_empty());
    assert!(world.entities().is_empty());
    assert_eq!(world.get_tile(Vec2i::new(4, 4)), Tile::Unknown);
    assert_eq!(world.get_entity_properties(&EntityType::House).size, 3);
}

#[test]
fn world_update_counts_entities() {
    let world = updated_world();
    assert_eq!(world.entities().len(), 6);
    assert_eq!(world.players().len(), 2);
    assert_eq!(world.get_my_entity_count_of(&EntityType::BuilderUnit), 2);
    assert_eq!(world.get_my_entity_count_of(&EntityType::House), 1);
    assert_eq!(world.get_my_units_count(), 2);
    assert_eq!(world.population_use(), 2);
    assert_eq!(world.population_provide(), 10);
    assert_eq!(world.get_entity_cost(&EntityType::BuilderUnit), 12);
    assert_eq!(world.get_entity_cost(&EntityType::House), 50);
    assert_eq!(world.get_tile(Vec2i::new(3, 15)), Tile::Entity(1));
    assert_eq!(world.get_tile(Vec2i::new(1, 1)), Tile::Empty);
    assert_eq!(world.get_tile_entity_type(Tile::Entity(4)), Some(EntityType::BuilderBase));
    assert_eq!(world.get_tile_entity_type(Tile::Empty), None);
}

#[test]
fn world_queries_pick_entities() {
    let world = updated_world();
    assert_eq!(ids(&world.my_entities()), vec![1, 2, 3, 4]);
    assert_eq!(ids(&world.opponent_entities()), vec![5]);
    assert_eq!(ids(&world.resources()), vec![6]);
    assert_eq!(ids(&world.my_builder_units()), vec![1, 2]);
    assert_eq!(ids(&world.my_units()), vec![1, 2]);
    assert_eq!(ids(&world.my_bases()), vec![4]);
    assert_eq!(ids(&world.my_builder_bases()), vec![4]);
    assert!(world.my_melee_bases().is_empty());
    assert!(world.my_ranged_bases().is_empty());
    assert!(world.my_turrets().is_empty());
    assert_eq!(ids(&world.my_buildings()), vec![3, 4]);
    assert_eq!(world.find_entity(5).map(|v| v.entity_type), Some(EntityType::RangedUnit));
    assert!(world.find_entity(7).is_none());
    assert!(world.contains_entity(6));
    assert!(!world.contains_entity(7));
    assert_eq!(world.get_entity(3).position, Vec2i::new(0, 17));
    assert!(world.has_active_base_for(&EntityType::BuilderUnit));
    assert!(!world.has_active_base_for(&EntityType::RangedUnit));
    assert_eq!(world.get_player(2).id, 2);
    assert_eq!(world.my_player().resource, 100);
}

#[test]
fn world_ledger_sets_resource_aside() {
    let mut world = updated_world();
    assert_eq!(world.my_resource(), 100);
    assert!(world.try_allocate_resource(30));
    assert_eq!(world.my_resource(), 70);
    assert!(!world.try_allocate_resource(80));
    assert_eq!(world.allocated_resource(), 30);
    assert!(world.try_request_resources(10));
    assert_eq!(world.requested_resource(), 10);
    assert_eq!(world.my_resource(), 60);
    world.release_requested_resource(10);
    assert_eq!(world.my_resource(), 70);
    assert_eq!(world.my_population_provide(), 10);
    assert!(world.try_allocated_resource_and_population(20, 5));
    assert_eq!(world.allocated_resource(), 50);
    assert_eq!(world.allocated_population(), 5);
    assert_eq!(world.my_population_provide(), 5);
    assert!(!world.try_allocated_resource_and_population(10, 6));
    assert_eq!(world.allocated_resource(), 50);
    assert!(world.try_request_resources(7));
    let v = view(false, base_entities());
    world.update(&v);
    assert_eq!(world.allocated_resource(), 0);
    assert_eq!(world.allocated_population(), 0);
    assert_eq!(world.requested_resource(), 7);
}

#[test]
fn world_request_needs_free_resource() {
    let mut world = updated_world();
    assert!(world.try_allocate_resource(100));
    assert_eq!(world.my_resource(), 0);
    assert!(!world.try_request_resources(1));
    assert_eq!(world.requested_resource(), 0);
}

#[test]
fn world_protected_radius() {
    let world = updated_world();
    assert_eq!(world.get_protected_radius(), 26);
    assert!(world.is_inside_protected_perimeter(Vec2i::new(10, 10)));
    assert!(!world.is_inside_protected_perimeter(Vec2i::new(19, 0)));
}

#[test]
fn world_marks_cells_opponents_threaten() {
    let world = updated_world();
    assert!(world.is_attacked_by_opponents(Vec2i::new(15, 3)));
    assert!(world.is_attacked_by_opponents(Vec2i::new(15, 11)));
    assert!(!world.is_attacked_by_opponents(Vec2i::new(15, 12)));
    assert!(!world.is_attacked_by_opponents(Vec2i::new(0, 19)));
}

fn small_world() -> World {
    let v = view(false, vec![entity(1, Some(1), EntityType::BuilderUnit, 3, 4)]);
    let mut world = World::new(&v);
    world.update(&v);
    world
}

#[test]
fn world_finds_space_for_buildings() {
    let world = small_world();
    assert_eq!(world.start_position(), Vec2i::new(0, 0));
    assert_eq!(world.find_free_space_for(&EntityType::House), Some(Vec2i::new(0, 0)));
    assert_eq!(world.find_free_space_for(&EntityType::Turret), Some(Vec2i::new(1, 1)));
}

#[test]
fn world_locks_squares() {
    let mut world = small_world();
    world.lock_square(Vec2i::new(1, 1), 2);
    assert!(world.is_tile_locked(Vec2i::new(2, 2)));
    assert!(!world.is_tile_locked(Vec2i::new(3, 3)));
    assert!(world.is_empty_square(Vec2i::new(1, 1), 2));
    assert!(!world.is_empty_square(Vec2i::new(2, 3), 2));
    assert!(!world.is_empty_square(Vec2i::new(19, 19), 2));
    world.unlock_square(Vec2i::new(1, 1), 2);
    assert!(!world.is_tile_locked(Vec2i::new(2, 2)));
}

#[test]
fn world_finds_tiles_next_to_units() {
    let world = small_world();
    assert!(world.contains(Vec2i::new(19, 19)));
    assert!(!world.contains(Vec2i::new(20, 0)));
    assert_eq!(world.find_free_tile_nearby(Vec2i::new(3, 4), 1), Some(Vec2i::new(2, 4)));
    assert_eq!(world.find_nearest_free_tile_nearby_for_unit(Vec2i::new(3, 4), 1, 1), Some(Vec2i::new(2, 4)));
    assert_eq!(world.find_nearest_free_tile_nearby_for_unit(Vec2i::new(5, 4), 1, 1), Some(Vec2i::new(4, 4)));
}

#[test]
fn world_keeps_entities_seen_again_under_fog() {
    let turret = entity(9, Some(2), EntityType::Turret, 6, 6);
    let builder = entity(1, Some(1), EntityType::BuilderUnit, 3, 4);
    let first = view(true, vec![builder, turret]);
    let mut world = World::new(&first);
    world.update(&first);
    assert_eq!(ids(world.entities()), vec![1, 9]);
    let mut moved = builder;
    moved.position = Vec2i::new(3, 5);
    let second = view(true, vec![moved, turret]);
    world.update(&second);
    assert_eq!(ids(world.entities()), vec![9, 1]);
    assert_eq!(world.get_entity(1).position, Vec2i::new(3, 5));
    assert_eq!(world.get_tile(Vec2i::new(19, 19)), Tile::Unknown);
    let third = view(true, vec![moved]);
    world.update(&third);
    assert_eq!(ids(world.entities()), vec![1]);
    assert!(!world.contains_entity(9));
}

fn roles_of(pairs: &[(i32, Role)]) -> HashMap<i32, Role> {
    pairs.iter().cloned().collect()
}

#[test]
fn harvesters_take_nearest_safe_resource() {
    let mut entities = base_entities();
    entities.push(entity(7, None, EntityType::Resource, 3, 12));
    let v = view(false, entities);
    let mut world = World::new(&v);
    world.update(&v);
    let mut roles = roles_of(&[(1, Role::Idle), (2, Role::Harvester { resource_id: 6 })]);
    assert_eq!(harvest_resources(&world, &mut roles), TaskStatus::Wait);
    assert_eq!(roles[&1], Role::Harvester { resource_id: 7 });
    assert_eq!(roles[&2], Role::Harvester { resource_id: 7 });
}

#[test]
fn harvesters_of_lost_resources_look_again() {
    let world = updated_world();
    let mut roles = roles_of(&[(1, Role::Fighter), (2, Role::Harvester { resource_id: 99 })]);
    harvest_resources(&world, &mut roles);
    assert_eq!(roles[&1], Role::Fighter);
    assert_eq!(roles[&2], Role::Harvester { resource_id: 6 });
}

#[test]
fn builder_bases_build_builders_when_resource_allows() {
    let mut world = updated_world();
    let mut roles = roles_of(&[(4, Role::Idle)]);
    assert_eq!(build_builders(&mut world, &mut roles), TaskStatus::Wait);
    assert_eq!(roles[&4], Role::UnitBuilder);
    assert_eq!(world.allocated_resource(), 12);
    assert_eq!(world.allocated_population(), 1);
    build_builders(&mut world, &mut roles);
    assert_eq!(roles[&4], Role::UnitBuilder);
    assert_eq!(world.allocated_resource(), 24);
}

#[test]
fn builder_bases_rest_without_resource() {
    let mut world = updated_world();
    assert!(world.try_allocate_resource(95));
    let mut roles = roles_of(&[(4, Role::UnitBuilder)]);
    build_builders(&mut world, &mut roles);
    assert_eq!(roles[&4], Role::Idle);
    assert_eq!(world.allocated_resource(), 95);
}

#[test]
fn build_units_task_orders_units() {
    let mut world = updated_world();
    let mut roles = roles_of(&[(4, Role::Idle)]);
    let mut task = BuildUnitsTask::new(EntityType::BuilderUnit, 2);
    assert_eq!(task.update(&mut world, &mut roles), TaskStatus::Wait);
    assert_eq!(roles[&4], Role::UnitBuilder);
    assert_eq!(world.allocated_resource(), 12);
    roles.insert(4, Role::Idle);
    assert_eq!(task.update(&mut world, &mut roles), TaskStatus::Done);
    assert_eq!(world.allocated_resource(), 24);
}

#[test]
fn build_units_task_skips_other_kinds() {
    let mut world = updated_world();
    let mut roles = roles_of(&[(4, Role::Idle)]);
    let mut task = BuildUnitsTask::new(EntityType::RangedUnit, 1);
    assert_eq!(task.update(&mut world, &mut roles), TaskStatus::Wait);
    assert_eq!(roles[&4], Role::Idle);
    assert_eq!(world.allocated_resource(), 0);
}

#[test]
fn group_update_drops_lost_units_and_settles_need() {
    let world = updated_world();
    let mut need: Vec<Option<usize>> = vec![None; 10];
    need[EntityType::BuilderUnit.index()] = Some(2);
    need[EntityType::RangedUnit.index()] = Some(3);
    let mut group = Group::new(1, need);
    group.add_unit(1, EntityType::BuilderUnit);
    group.add_unit(42, EntityType::BuilderUnit);
    group.add_unit(2, EntityType::BuilderUnit);
    assert!(!group.is_full());
    group.update(&world);
    assert_eq!(group.units(), &vec![(1, EntityType::BuilderUnit), (2, EntityType::BuilderUnit)]);
    assert_eq!(group.has()[EntityType::BuilderUnit.index()], Some(2));
    assert!(!group.need_more_of(&EntityType::RangedUnit));
    assert!(group.is_full());
    assert_eq!(group.position(), Vec2i::new(3, 15));
}

#[test]
fn empty_group_stands_at_origin() {
    let world = updated_world();
    let mut need: Vec<Option<usize>> = vec![None; 10];
    need[EntityType::MeleeUnit.index()] = Some(1);
    let mut group = Group::new(2, need);
    group.add_unit(77, EntityType::MeleeUnit);
    group.update(&world);
    assert!(group.is_empty());
    assert_eq!(group.position(), Vec2i::new(0, 0));
    assert!(group.is_full());
}

fn builder_group(id: u32) -> Group {
    let mut need: Vec<Option<usize>> = vec![None; 10];
    need[EntityType::BuilderUnit.index()] = Some(1);
    Group::new(id, need)
}

#[test]
fn gather_group_takes_units_then_is_done() {
    let mut world = updated_world();
    let mut roles = roles_of(&[(1, Role::Harvester { resource_id: 6 }), (2, Role::Idle), (4, Role::Idle)]);
    for id in 100..111 {
        roles.insert(id, Role::Harvester { resource_id: 6 });
    }
    let mut groups = vec![builder_group(3), builder_group(7)];
    let mut task = GatherGroupTask::new(7);
    assert_eq!(task.update(&mut world, &mut roles, &mut groups), TaskStatus::Wait);
    assert_eq!(groups[1].units(), &vec![(1, EntityType::BuilderUnit)]);
    assert!(groups[0].is_empty());
    assert_eq!(roles[&1], Role::GroupMember { group_id: 7 });
    assert_eq!(roles[&2], Role::Idle);
    assert_eq!(roles[&4], Role::Idle);
    assert_eq!(world.allocated_resource(), 0);
    assert_eq!(task.update(&mut world, &mut roles, &mut groups), TaskStatus::Done);
    assert_eq!(groups[1].state(), GroupState::Ready);
    assert_eq!(groups[0].state(), GroupState::New);
}

#[test]
fn gather_group_keeps_builders_harvesting_and_orders_them() {
    let mut world = updated_world();
    let mut roles = roles_of(&[(1, Role::Harvester { resource_id: 6 }), (2, Role::Fighter), (4, Role::Idle)]);
    let mut groups = vec![builder_group(7)];
    let mut task = GatherGroupTask::new(7);
    assert_eq!(task.update(&mut world, &mut roles, &mut groups), TaskStatus::Wait);
    assert!(groups[0].is_empty());
    assert_eq!(roles[&1], Role::Harvester { resource_id: 6 });
    assert_eq!(roles[&4], Role::GroupSupplier { group_id: 7 });
    assert_eq!(world.allocated_resource(), 12);
    assert_eq!(world.allocated_population(), 1);
}

#[test]
fn gather_group_fails_without_group() {
    let mut world = updated_world();
    let mut roles = roles_of(&[(4, Role::Idle)]);
    let mut groups = vec![builder_group(7)];
    let mut task = GatherGroupTask::new(9);
    assert_eq!(task.update(&mut world, &mut roles, &mut groups), TaskStatus::Fail);
    assert_eq!(roles[&4], Role::Idle);
}

#[test]
fn make_action_follows_plan_step() {
    let world = updated_world();
    let builder = *world.get_entity(1);
    let attack = make_action(&builder, &SimulatedEntityActionType::Attack { target: 5 }, &world);
    assert_eq!(attack.attack_action, Some(AttackAction { target: Some(5), auto_attack: None }));
    assert!(attack.move_action.is_none());
    let step = make_action(&builder, &SimulatedEntityActionType::MoveEntity { direction: Vec2i::new(1, 0) }, &world);
    assert_eq!(
        step.move_action,
        Some(MoveAction { target: Vec2i::new(4, 15), find_closest_position: false, break_through: false })
    );
    assert!(step.attack_action.is_none());
    let auto = make_action(&builder, &SimulatedEntityActionType::AutoAttack, &world);
    assert_eq!(
        auto.attack_action,
        Some(AttackAction { target: None, auto_attack: Some(AutoAttack { pathfind_range: 10, valid_targets: vec![] }) })
    );
    let idle = make_action(&builder, &SimulatedEntityActionType::Idle, &world);
    assert_eq!(idle, get_idle_action());
    assert!(idle.move_action.is_none() && idle.attack_action.is_none());
    assert!(idle.build_action.is_none() && idle.repair_action.is_none());
}

#[test]
fn default_action_attacks_when_armed() {
    let world = updated_world();
    let ranged = *world.get_entity(5);
    let action = get_default_action(&ranged, &world);
    let auto = action.attack_action.unwrap().auto_attack.unwrap();
    assert_eq!(auto.pathfind_range, 10);
    assert_eq!(auto.valid_targets.len(), 9);
    assert_eq!(auto.valid_targets[0], EntityType::BuilderUnit);
    assert_eq!(auto.valid_targets[8], EntityType::Wall);
    let resource = *world.get_entity(6);
    assert_eq!(get_default_action(&resource, &world), get_idle_action());
}

#[test]
fn harvest_resource_walks_to_resource() {
    let world = updated_world();
    let builder = *world.get_entity(1);
    let action = harvest_resource(&builder, &world, 6);
    assert_eq!(
        action.move_action,
        Some(MoveAction { target: Vec2i::new(10, 10), find_closest_position: true, break_through: true })
    );
    assert_eq!(
        action.attack_action,
        Some(AttackAction {
            target: Some(6),
            auto_attack: Some(AutoAttack {
                pathfind_range: 40,
                valid_targets: vec![EntityType::BuilderUnit, EntityType::Resource],
            }),
        })
    );
    let threatened = entity(9, Some(1), EntityType::BuilderUnit, 15, 5);
    let action = harvest_resource(&threatened, &world, 6);
    assert_eq!(
        action.attack_action,
        Some(AttackAction {
            target: None,
            auto_attack: Some(AutoAttack { pathfind_range: 1, valid_targets: vec![EntityType::BuilderUnit] }),
        })
    );
}

#[test]
fn fight_heads_for_target() {
    let world = updated_world();
    let builder = *world.get_entity(1);
    let planners: HashMap<i32, EntityPlanner> = HashMap::new();
    let action = fight(&builder, &world, Some(Vec2i::new(7, 7)), &HashMap::new(), &planners);
    assert_eq!(
        action.move_action,
        Some(MoveAction { target: Vec2i::new(7, 7), find_closest_position: true, break_through: true })
    );
    assert_eq!(
        action.attack_action,
        Some(AttackAction { target: None, auto_attack: Some(AutoAttack { pathfind_range: 10, valid_targets: vec![] }) })
    );
    let mut targets = HashMap::new();
    targets.insert(1, Vec2i::new(2, 2));
    let mut planners = HashMap::new();
    planners.insert(1, EntityPlanner::new(1, 1, 1, 2));
    assert!(get_action_by_plan(&builder, &world, &planners).is_none());
    let action = fight(&builder, &world, None, &targets, &planners);
    assert_eq!(action.move_action.map(|v| v.target), Some(Vec2i::new(2, 2)));
    let action = fight(&builder, &world, None, &HashMap::new(), &planners);
    assert!(action.move_action.is_none());
}

#[test]
fn damaged_repairer_mends_itself() {
    let mut v = view(false, base_entities());
    v.entity_properties[3].1.repair = Some(RepairProperties { power: 1 });
    v.entities[0].health = 5;
    let mut world = World::new(&v);
    world.update(&v);
    let mut need: Vec<Option<usize>> = vec![None; 10];
    need[EntityType::BuilderUnit.index()] = Some(2);
    let mut group = Group::new(1, need);
    group.add_unit(1, EntityType::BuilderUnit);
    group.set_target(Some(Vec2i::new(9, 9)));
    let planners: HashMap<i32, EntityPlanner> = HashMap::new();
    let builder = *world.get_entity(1);
    let action = assist_group(&builder, &world, &group, &HashMap::new(), &planners);
    assert_eq!(action.repair_action, Some(RepairAction { target: 1 }));
    assert_eq!(
        action.move_action,
        Some(MoveAction { target: Vec2i::new(3, 15), find_closest_position: true, break_through: false })
    );
    let healthy = *world.get_entity(2);
    let action = assist_group(&healthy, &world, &group, &HashMap::new(), &planners);
    assert!(action.repair_action.is_none());
    assert_eq!(action.move_action.map(|v| v.target), Some(Vec2i::new(9, 9)));
}

#[test]
fn clear_area_takes_nearest_free_builder_then_is_done() {
    let mut entities = base_entities();
    entities.push(entity(7, Some(1), EntityType::BuilderUnit, 11, 13));
    let v = view(false, entities);
    let mut world = World::new(&v);
    world.update(&v);
    let mut roles = roles_of(&[(1, Role::Idle), (2, Role::Harvester { resource_id: 6 }), (7, Role::Idle)]);
    let mut task = ClearAreaTask::new(Vec2i::new(9, 9), 3);
    assert_eq!(task.update(&world, &mut roles), TaskStatus::Wait);
    assert_eq!(roles[&7], Role::Cleaner { resource_id: 6 });
    assert_eq!(roles[&1], Role::Idle);
    assert_eq!(roles[&2], Role::Harvester { resource_id: 6 });
    assert_eq!(task.update(&world, &mut roles), TaskStatus::Wait);
    assert_eq!(roles[&7], Role::Cleaner { resource_id: 6 });
    assert_eq!(roles[&1], Role::Idle);

    let mut cleared: Vec<Entity> = base_entities().into_iter().filter(|e| e.id != 6).collect();
    cleared.push(entity(7, Some(1), EntityType::BuilderUnit, 11, 13));
    let v = view(false, cleared);
    let mut world = World::new(&v);
    world.update(&v);
    assert_eq!(task.update(&world, &mut roles), TaskStatus::Done);
    assert_eq!(roles[&7], Role::Idle);
}

#[test]
fn clear_area_without_resources_is_done() {
    let world = updated_world();
    let mut roles = roles_of(&[(1, Role::Idle), (2, Role::Idle)]);
    let mut task = ClearAreaTask::new(Vec2i::new(0, 0), 2);
    assert_eq!(task.update(&world, &mut roles), TaskStatus::Done);
    assert_eq!(roles[&1], Role::Idle);
}

#[test]
fn repair_sends_nearest_builder_and_ends_finished_repairs() {
    let mut entities = base_entities();
    entities[2].health = 4;
    let v = view(false, entities);
    let mut world = World::new(&v);
    world.update(&v);
    let mut roles = roles_of(&[
        (1, Role::Idle),
        (2, Role::Idle),
        (9, Role::BuildingRepairer { building_id: 4, need_resources: false }),
        (10, Role::BuildingRepairer { building_id: 77, need_resources: false }),
    ]);
    assert_eq!(repair_buildings(&world, &mut roles), TaskStatus::Wait);
    assert_eq!(roles[&1], Role::BuildingRepairer { building_id: 3, need_resources: false });
    assert_eq!(roles[&2], Role::Idle);
    assert_eq!(roles[&9], Role::Idle);
    assert_eq!(roles[&10], Role::Idle);
}

#[test]
fn repair_skips_buildings_already_repaired_and_busy_builders() {
    let mut entities = base_entities();
    entities[2].health = 4;
    let v = view(false, entities);
    let mut world = World::new(&v);
    world.update(&v);
    let mut roles = roles_of(&[
        (1, Role::Fighter),
        (2, Role::BuildingRepairer { building_id: 3, need_resources: false }),
    ]);
    repair_buildings(&world, &mut roles);
    assert_eq!(roles[&1], Role::Fighter);
    assert_eq!(roles[&2], Role::BuildingRepairer { building_id: 3, need_resources: false });

    let mut roles = roles_of(&[(1, Role::Fighter), (2, Role::Scout)]);
    repair_buildings(&world, &mut roles);
    assert_eq!(roles[&1], Role::Fighter);
    assert_eq!(roles[&2], Role::Scout);
}

#[test]
fn build_building_reserves_places_and_is_done_when_built() {
    let v = view(false, base_entities());
    let mut world = World::new(&v);
    world.update(&v);
    let mut roles = roles_of(&[(1, Role::Idle), (2, Role::Harvester { resource_id: 6 })]);
    let mut task = BuildBuildingTask::new(EntityType::House);
    assert_eq!(task.update(&mut world, &mut roles, 1), TaskStatus::Wait);
    assert_eq!(world.requested_resource(), 50);
    let position = match roles[&1] {
        Role::BuildingBuilder { position, entity_type } => {
            assert_eq!(entity_type, EntityType::House);
            position
        }
        other => panic!("unexpected role {:?}", other),
    };
    assert_eq!(roles[&2], Role::Harvester { resource_id: 6 });
    assert!(world.is_tile_locked(position));

    assert_eq!(task.update(&mut world, &mut roles, 1), TaskStatus::Wait);
    assert_eq!(world.requested_resource(), 50);

    let mut entities = base_entities();
    entities.push(entity(20, Some(1), EntityType::House, position.x, position.y));
    let v2 = view(false, entities);
    world.update(&v2);
    assert_eq!(task.update(&mut world, &mut roles, 1), TaskStatus::Done);
    assert_eq!(world.requested_resource(), 0);
    assert_eq!(roles[&1], Role::Idle);
    assert!(!world.is_tile_locked(position));
}

#[test]
fn build_building_waits_without_resource() {
    let mut v = view(false, base_entities());
    v.players[0].resource = 0;
    let mut world = World::new(&v);
    world.update(&v);
    let mut roles = roles_of(&[(1, Role::Idle), (2, Role::Idle)]);
    let mut task = BuildBuildingTask::new(EntityType::House);
    assert_eq!(task.update(&mut world, &mut roles, 1), TaskStatus::Wait);
    assert_eq!(world.requested_resource(), 0);
    assert_eq!(roles[&1], Role::Idle);
}

#[test]
fn simulator_from_world_takes_square_entities_by_id() {
    let world = updated_world();
    let sim = EntitySimulator::from_world(Vec2i::new(2, 12), 8, &world);
    let ids: Vec<i32> = sim.entities().iter().map(|e| e.id).collect();
    assert_eq!(ids, vec![1, 2, 3]);
    assert!(sim.entities().iter().all(|e| e.available));
    assert_eq!(sim.entities()[2].position, Vec2i::new(0, 17));
    assert_eq!(sim.players().len(), 2);
    assert_eq!(sim.players()[1].id, 2);
    assert_eq!(sim.shift(), Vec2i::new(2, 12));

    let empty = EntitySimulator::from_world(Vec2i::new(12, 5), 4, &world);
    assert!(empty.entities().is_empty());
}
