use codecraft_bot::build_planner::{BuildAction, BuildPlanner};
use codecraft_bot::build_simulator::{BuildSimulator, BuildTask, Builder};
use codecraft_bot::entity_type::{AttackProperties, EntityProperties, RepairProperties};

fn properties(size: i32, population_provide: i32, max_health: i32, initial_cost: i32) -> EntityProperties {
    EntityProperties {
        size,
        build_score: 0,
        destroy_score: 0,
        can_move: false,
        population_use: 0,
        population_provide,
        max_health,
        initial_cost,
        sight_range: 0,
        resource_per_health: 0,
        build: None,
        attack: None,
        repair: None,
    }
}

/// The properties of the game's kinds, in the order of `EntityType`.
fn entity_properties() -> Vec<EntityProperties> {
    let mut builder = properties(1, 0, 10, 10);
    builder.can_move = true;
    builder.population_use = 1;
    builder.attack = Some(AttackProperties { attack_range: 1, damage: 1, collect_resource: true });
    builder.repair = Some(RepairProperties { power: 1 });
    let mut melee = properties(1, 0, 50, 20);
    melee.can_move = true;
    melee.population_use = 1;
    let mut ranged = properties(1, 0, 10, 30);
    ranged.can_move = true;
    ranged.population_use = 1;
    let mut resource = properties(1, 0, 30, 0);
    resource.resource_per_health = 1;
    vec![
        properties(1, 0, 50, 10),
        properties(3, 5, 50, 50),
        properties(5, 5, 300, 500),
        builder,
        properties(5, 5, 300, 500),
        melee,
        properties(5, 5, 300, 500),
        ranged,
        resource,
        properties(2, 0, 100, 50),
    ]
}

fn idle() -> Builder {
    Builder { task: BuildTask::Idle, ticks_to_start: 0 }
}

fn one_idle_builder() -> BuildSimulator {
    BuildSimulator::new(0, 5, vec![idle()], vec![])
}

#[test]
fn plan_one_step_deep_takes_the_final_child() {
    let mut planner = BuildPlanner::new(1);
    let entity_properties = entity_properties();
    let is_final = |simulator: &BuildSimulator| simulator.tick() >= 5;
    let (iterations, plan) = planner.update(one_idle_builder(), &entity_properties, 1000, is_final);
    assert_eq!(iterations, 3);
    assert_eq!(plan.transitions, vec![BuildAction::Simulate { ticks: 5 }]);
    assert_eq!(plan.score, 1);
}

#[test]
fn plan_prefers_the_better_final_state() {
    let mut planner = BuildPlanner::new(1);
    let entity_properties = entity_properties();
    let is_final = |simulator: &BuildSimulator| simulator.tick() >= 5 || simulator.builders()[0].task == BuildTask::Harvest;
    let (iterations, plan) = planner.update(one_idle_builder(), &entity_properties, 1000, is_final);
    assert_eq!(iterations, 3);
    assert_eq!(plan.transitions, vec![BuildAction::Assign { builder_index: 0, task: BuildTask::Harvest }]);
    assert_eq!(plan.score, 6);
}

#[test]
fn plan_until_first_resource() {
    let mut planner = BuildPlanner::new(3);
    let entity_properties = entity_properties();
    let is_final = |simulator: &BuildSimulator| simulator.resource() >= 5;
    let (iterations, plan) = planner.update(one_idle_builder(), &entity_properties, 1000, is_final);
    assert_eq!(iterations, 10);
    assert_eq!(
        plan.transitions,
        vec![BuildAction::Assign { builder_index: 0, task: BuildTask::Harvest }, BuildAction::Simulate { ticks: 10 }]
    );
    assert_eq!(plan.score, 1);
}

#[test]
fn plan_stops_at_the_transition_limit() {
    let mut planner = BuildPlanner::new(3);
    let entity_properties = entity_properties();
    let is_final = |simulator: &BuildSimulator| simulator.resource() >= 5;
    let (iterations, plan) = planner.update(one_idle_builder(), &entity_properties, 1, is_final);
    assert_eq!(iterations, 3);
    assert!(plan.transitions.is_empty());
    assert_eq!(plan.score, 0);
}

#[test]
fn plan_from_a_final_start_is_empty() {
    let mut planner = BuildPlanner::new(10);
    let simulator = BuildSimulator::new(7, 5, vec![idle()], vec![]);
    let entity_properties = entity_properties();
    let (iterations, plan) = planner.update(simulator, &entity_properties, 100, |_: &BuildSimulator| true);
    assert_eq!(iterations, 1);
    assert!(plan.transitions.is_empty());
    assert_eq!(plan.score, 0);
}

#[test]
fn plan_with_no_final_state_is_default() {
    let mut planner = BuildPlanner::new(2);
    let simulator = BuildSimulator::new(0, 5, vec![idle()], vec![]);
    let entity_properties = entity_properties();
    let (iterations, plan) = planner.update(simulator, &entity_properties, 100, |_: &BuildSimulator| false);
    assert_eq!(iterations, 6);
    assert!(plan.transitions.is_empty());
    assert_eq!(plan.score, 0);
}

#[test]
fn plan_merges_simulation_steps() {
    let mut planner = BuildPlanner::new(100);
    let simulator = BuildSimulator::new(0, 5, vec![idle()], vec![]);
    let entity_properties = entity_properties();
    let is_final = |simulator: &BuildSimulator| simulator.resource() >= 10;
    let (_, plan) = planner.update(simulator, &entity_properties, 1000, is_final);
    for pair in plan.transitions.windows(2) {
        let both_simulate = matches!(pair[0], BuildAction::Simulate { .. }) && matches!(pair[1], BuildAction::Simulate { .. });
        assert!(!both_simulate, "{:?}", plan.transitions);
    }
    assert!(!plan.transitions.is_empty());
}
