use codecraft_bot::entity_simulator::{
    EntitySimulator, SimulatedEntity, SimulatedEntityAction, SimulatedEntityActionType,
};
use codecraft_bot::entity_type::{AttackProperties, EntityProperties, EntityType, RepairProperties};
use codecraft_bot::vec2::Vec2i;
use rand::rngs::StdRng;
use rand::SeedableRng;

fn properties(
    size: i32,
    destroy_score: i32,
    can_move: bool,
    max_health: i32,
    initial_cost: i32,
    sight_range: i32,
    attack: Option<AttackProperties>,
) -> EntityProperties {
    EntityProperties {
        size,
        build_score: 0,
        destroy_score,
        can_move,
        population_use: if can_move { 1 } else { 0 },
        population_provide: 0,
        max_health,
        initial_cost,
        sight_range,
        resource_per_health: 0,
        build: None,
        attack,
        repair: None,
    }
}

fn attack(attack_range: i32, damage: i32) -> Option<AttackProperties> {
    Some(AttackProperties { attack_range, damage, collect_resource: false })
}

/// The properties of the game's kinds, in the order of `EntityType`.
fn entity_properties() -> Vec<EntityProperties> {
    let mut builder = properties(1, 100, true, 10, 10, 10, attack(1, 1));
    builder.repair = Some(RepairProperties { power: 1 });
    let mut resource = properties(1, 0, false, 30, 0, 0, None);
    resource.resource_per_health = 1;
    vec![
        properties(1, 10, false, 50, 10, 2, None),
        properties(3, 50, false, 50, 50, 5, None),
        properties(5, 500, false, 300, 500, 5, None),
        builder,
        properties(5, 500, false, 300, 500, 5, None),
        properties(1, 200, true, 50, 20, 10, attack(1, 5)),
        properties(5, 500, false, 300, 500, 5, None),
        properties(1, 300, true, 10, 30, 10, attack(5, 5)),
        resource,
        properties(2, 500, false, 100, 50, 10, attack(5, 5)),
    ]
}

/// The square of 20 cells from (20, 20) of a map where two players each have a ranged and a
/// melee unit close together, and the first also a builder in the corner.
fn new_simulator() -> EntitySimulator {
    let props = entity_properties();
    let units = [
        (1, 1, EntityType::BuilderUnit, 20, 20),
        (2, 1, EntityType::RangedUnit, 30, 30),
        (3, 2, EntityType::RangedUnit, 35, 30),
        (4, 1, EntityType::MeleeUnit, 30, 35),
        (5, 2, EntityType::MeleeUnit, 35, 35),
    ];
    let mut cells: Vec<Option<SimulatedEntity>> = vec![None; 400];
    for (id, player_id, entity_type, x, y) in units.iter() {
        let index = ((*x - 20) + (*y - 20) * 20) as usize;
        cells[index] = Some(SimulatedEntity {
            id: *id,
            entity_type: *entity_type,
            position: Vec2i::new(*x, *y),
            player_id: Some(*player_id),
            health: props[entity_type.index()].max_health,
            active: true,
            available: true,
        });
    }
    EntitySimulator::new(Vec2i::new(20, 20), 20, &cells, &vec![(1, 0), (2, 0)])
}

#[test]
fn simulate() {
    let props = entity_properties();
    let mut simulator = new_simulator();
    let mut rng = StdRng::seed_from_u64(42);
    simulator.simulate(&props, &mut rng);
    assert_eq!(simulator.entities().len(), 5);
    assert_eq!(simulator.players().len(), 2);
    assert_eq!(simulator.players()[0].id, 1);
    assert_eq!(simulator.players()[1].id, 2);
    assert_eq!(simulator.players()[0].score, 0);
    assert_eq!(simulator.players()[1].score, 0);
    assert_eq!(simulator.players()[0].damage_received, 0);
    assert_eq!(simulator.players()[1].damage_received, 0);
    assert_eq!(simulator.players()[0].damage_done, 0);
    assert_eq!(simulator.players()[1].damage_done, 0);
}

#[test]
fn simulate_move_entity() {
    let props = entity_properties();
    let mut simulator = new_simulator();
    let mut rng = StdRng::seed_from_u64(42);
    simulator.add_action(SimulatedEntityAction {
        entity_id: 1,
        action_type: SimulatedEntityActionType::MoveEntity { direction: Vec2i::new(1, 0) },
    });
    simulator.simulate(&props, &mut rng);
    assert_eq!(simulator.entities()[0].id, 1);
    assert_eq!(simulator.entities()[0].position, Vec2i::new(21, 20));
}

#[test]
fn simulate_move_entity_outside() {
    let props = entity_properties();
    let mut simulator = new_simulator();
    let mut rng = StdRng::seed_from_u64(42);
    simulator.add_action(SimulatedEntityAction {
        entity_id: 1,
        action_type: SimulatedEntityActionType::MoveEntity { direction: Vec2i::new(-1, 0) },
    });
    simulator.simulate(&props, &mut rng);
    assert_eq!(simulator.entities().len(), 4);
    assert!(!simulator.entities().iter().any(|v| v.id == 1));
}

#[test]
fn simulate_attack_in_range() {
    let props = entity_properties();
    let mut simulator = new_simulator();
    let mut rng = StdRng::seed_from_u64(42);
    simulator.add_action(SimulatedEntityAction {
        entity_id: 2,
        action_type: SimulatedEntityActionType::Attack { target: 3 },
    });
    assert_eq!(simulator.entities()[2].id, 3);
    assert_eq!(simulator.entities()[2].health, 10);
    simulator.simulate(&props, &mut rng);
    assert_eq!(simulator.entities()[2].id, 3);
    assert_eq!(simulator.entities()[2].health, 5);
}

#[test]
fn simulate_attack_out_of_range() {
    let props = entity_properties();
    let mut simulator = new_simulator();
    let mut rng = StdRng::seed_from_u64(42);
    simulator.add_action(SimulatedEntityAction {
        entity_id: 4,
        action_type: SimulatedEntityActionType::Attack { target: 5 },
    });
    assert_eq!(simulator.entities()[4].id, 5);
    assert_eq!(simulator.entities()[4].health, 50);
    simulator.simulate(&props, &mut rng);
    assert_eq!(simulator.entities()[4].id, 5);
    assert_eq!(simulator.entities()[4].health, 50);
}

#[test]
fn simulate_auto_attack_in_range() {
    let props = entity_properties();
    let mut simulator = new_simulator();
    let mut rng = StdRng::seed_from_u64(42);
    simulator.add_action(SimulatedEntityAction {
        entity_id: 3,
        action_type: SimulatedEntityActionType::AutoAttack,
    });
    assert_eq!(simulator.entities()[1].id, 2);
    assert_eq!(simulator.entities()[1].health, 10);
    simulator.simulate(&props, &mut rng);
    assert_eq!(simulator.entities()[1].id, 2);
    assert_eq!(simulator.entities()[1].health, 5);
}

#[test]
fn simulate_auto_attack_out_of_range() {
    let props = entity_properties();
    let mut simulator = new_simulator();
    let mut rng = StdRng::seed_from_u64(42);
    simulator.add_action(SimulatedEntityAction {
        entity_id: 5,
        action_type: SimulatedEntityActionType::AutoAttack,
    });
    assert_eq!(simulator.entities()[4].id, 5);
    assert_eq!(simulator.entities()[4].position, Vec2i::new(35, 35));
    simulator.simulate(&props, &mut rng);
    assert_eq!(simulator.entities()[4].id, 5);
    assert_eq!(simulator.entities()[4].position, Vec2i::new(34, 35));
}

#[test]
fn simulate_all_auto_attack() {
    let props = entity_properties();
    let mut simulator = new_simulator();
    let mut rng = StdRng::seed_from_u64(42);
    while simulator.entities().len() > 1 {
        for i in 0..simulator.entities().len() {
            simulator.add_action(SimulatedEntityAction {
                entity_id: simulator.entities()[i].id,
                action_type: SimulatedEntityActionType::AutoAttack,
            });
        }
        simulator.simulate(&props, &mut rng);
    }
    assert_eq!(simulator.players()[0].id, 1);
    assert_eq!(simulator.players()[1].id, 2);
    assert_eq!(simulator.players()[0].score, 500);
    assert_eq!(simulator.players()[1].score, 500);
    assert_eq!(simulator.players()[0].damage_received, 60);
    assert_eq!(simulator.players()[1].damage_received, 60);
    assert_eq!(simulator.players()[0].damage_done, 60);
    assert_eq!(simulator.players()[1].damage_done, 60);
}
