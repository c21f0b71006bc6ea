use codecraft_bot::entity_planner::{is_active_entity_type, EntityPlan, EntityPlanner};
use codecraft_bot::entity_simulator::{EntitySimulator, SimulatedEntity, SimulatedEntityActionType};
use codecraft_bot::entity_type::{AttackProperties, EntityProperties, EntityType, RepairProperties};
use codecraft_bot::vec2::Vec2i;
use rand::rngs::StdRng;
use rand::SeedableRng;

fn properties(size: i32, can_move: bool, max_health: i32, attack: Option<AttackProperties>) -> EntityProperties {
    EntityProperties {
        size,
        build_score: 0,
        destroy_score: 100,
        can_move,
        population_use: if can_move { 1 } else { 0 },
        population_provide: 0,
        max_health,
        initial_cost: 10,
        sight_range: 10,
        resource_per_health: 0,
        build: None,
        attack,
        repair: None,
    }
}

fn attack(attack_range: i32, damage: i32) -> Option<AttackProperties> {
    Some(AttackProperties { attack_range, damage, collect_resource: false })
}

/// The properties of the game's kinds, in the order of `EntityType`.
fn entity_properties() -> Vec<EntityProperties> {
    let mut builder = properties(1, true, 10, attack(1, 1));
    builder.repair = Some(RepairProperties { power: 1 });
    vec![
        properties(1, false, 50, None),
        properties(3, false, 50, None),
        properties(5, false, 300, None),
        builder,
        properties(5, false, 300, None),
        properties(1, true, 50, attack(1, 5)),
        properties(5, false, 300, None),
        properties(1, true, 10, attack(5, 5)),
        properties(1, false, 30, None),
        properties(2, false, 100, attack(5, 5)),
    ]
}

/// The square of 20 cells from (20, 20) with the given units on it.
fn simulator(units: &[(i32, i32, EntityType, i32, i32)]) -> EntitySimulator {
    let props = entity_properties();
    let mut cells: Vec<Option<SimulatedEntity>> = vec![None; 400];
    for (id, player_id, entity_type, x, y) in units.iter() {
        let index = ((*x - 20) + (*y - 20) * 20) as usize;
        cells[index] = Some(SimulatedEntity {
            id: *id,
            entity_type: *entity_type,
            position: Vec2i::new(*x, *y),
            player_id: Some(*player_id),
            health: props[entity_type.index()].max_health,
            active: true,
            available: true,
        });
    }
    EntitySimulator::new(Vec2i::new(20, 20), 20, &cells, &vec![(1, 0), (2, 0)])
}

fn duel() -> EntitySimulator {
    simulator(&[(2, 1, EntityType::RangedUnit, 30, 30), (3, 2, EntityType::RangedUnit, 35, 30)])
}

#[test]
fn lone_unit_plans_one_move() {
    let mut planner = EntityPlanner::new(1, 2, 1, 1);
    let mut rng = StdRng::seed_from_u64(42);
    let sim = simulator(&[(2, 1, EntityType::RangedUnit, 30, 30)]);
    let iterations = planner.update(80, sim, &entity_properties(), 100, &[], &mut rng);
    assert_eq!(iterations, 5);
    assert_eq!(planner.plan().transitions.len(), 1);
    assert!(matches!(planner.plan().transitions[0], SimulatedEntityActionType::MoveEntity { .. }));
    assert_eq!(planner.plan().score, 0);
}

#[test]
fn unit_attacks_enemy_in_range() {
    let mut planner = EntityPlanner::new(1, 2, 1, 1);
    let mut rng = StdRng::seed_from_u64(42);
    let iterations = planner.update(80, duel(), &entity_properties(), 100, &[], &mut rng);
    assert_eq!(iterations, 6);
    assert_eq!(planner.plan().transitions, vec![SimulatedEntityActionType::Attack { target: 3 }]);
    assert_eq!(planner.plan().score, 0);
}

#[test]
fn unit_attacks_enemy_that_follows_its_plan() {
    let mut planner = EntityPlanner::new(1, 2, 1, 1);
    let mut rng = StdRng::seed_from_u64(7);
    let idle = EntityPlan { transitions: vec![SimulatedEntityActionType::Idle], score: 0 };
    let iterations = planner.update(80, duel(), &entity_properties(), 100, &[(3, idle)], &mut rng);
    assert_eq!(iterations, 6);
    assert_eq!(planner.plan().transitions, vec![SimulatedEntityActionType::Attack { target: 3 }]);
    assert_eq!(planner.plan().score, 10);
}

#[test]
fn first_state_stays_best_on_ties() {
    let mut planner = EntityPlanner::new(1, 2, 0, 1);
    let mut rng = StdRng::seed_from_u64(1);
    let iterations = planner.update(80, duel(), &entity_properties(), 100, &[], &mut rng);
    assert_eq!(iterations, 6);
    assert!(planner.plan().transitions.is_empty());
    assert_eq!(planner.plan().score, 0);
}

#[test]
fn missing_entity_gives_no_plan() {
    let mut planner = EntityPlanner::new(1, 99, 1, 3);
    let mut rng = StdRng::seed_from_u64(1);
    let iterations = planner.update(80, duel(), &entity_properties(), 100, &[], &mut rng);
    assert_eq!(iterations, 1);
    assert!(planner.plan().transitions.is_empty());
    assert_eq!(planner.plan().score, 0);
    assert_eq!(planner.entity_id(), 99);
}

#[test]
fn transition_limit_stops_the_search() {
    let mut planner = EntityPlanner::new(1, 2, 1, 5);
    let mut rng = StdRng::seed_from_u64(3);
    let iterations = planner.update(80, duel(), &entity_properties(), 2, &[], &mut rng);
    assert_eq!(iterations, 3);
    assert_eq!(planner.plan().transitions.len(), 1);
}

#[test]
fn reset_forgets_the_plan() {
    let mut planner = EntityPlanner::new(1, 2, 1, 1);
    let mut rng = StdRng::seed_from_u64(42);
    planner.update(80, duel(), &entity_properties(), 100, &[], &mut rng);
    assert!(!planner.plan().transitions.is_empty());
    planner.reset();
    assert!(planner.plan().transitions.is_empty());
    assert_eq!(planner.plan().score, 0);
}

#[test]
fn active_kinds_attack_and_are_no_builders() {
    let props = entity_properties();
    assert!(is_active_entity_type(&EntityType::RangedUnit, &props));
    assert!(is_active_entity_type(&EntityType::Turret, &props));
    assert!(!is_active_entity_type(&EntityType::BuilderUnit, &props));
    assert!(!is_active_entity_type(&EntityType::House, &props));
}
