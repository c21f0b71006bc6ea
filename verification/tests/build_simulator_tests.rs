use codecraft_bot::build_simulator::{
    BuildProperties, BuildSimulator, BuildTask, Builder, Building, Construction,
};

fn properties() -> BuildProperties {
    BuildProperties {
        harvest_rate: 1,
        construct_rate: 5,
        transfer_ticks: 5,
        builder_cost: 10,
        start_costs: vec![50, 500],
        construction_costs: vec![50, 500],
        population_provide: vec![5, 15],
    }
}

fn idle() -> Builder {
    Builder { task: BuildTask::Idle, ticks_to_start: 0 }
}

#[test]
fn new_simulator_starts_at_tick_zero() {
    let simulator = BuildSimulator::new(100, 5, vec![idle()], Vec::new());
    assert_eq!(simulator.tick(), 0);
    assert_eq!(simulator.resource(), 100);
    assert_eq!(simulator.population_provide(), 5);
    assert_eq!(simulator.buildings(), &vec![0, 0]);
    assert_eq!(simulator.builders(), &vec![idle()]);
    assert!(simulator.constructions().is_empty());
}

#[test]
fn assign_walks_before_harvesting() {
    let p = properties();
    let mut simulator = BuildSimulator::new(100, 5, vec![idle()], Vec::new());
    simulator.assign(0, BuildTask::Harvest, &p);
    assert_eq!(simulator.builders()[0], Builder { task: BuildTask::Harvest, ticks_to_start: 5 });
    for _ in 0..5 {
        simulator.simulate(&p);
    }
    assert_eq!(simulator.tick(), 5);
    assert_eq!(simulator.resource(), 100);
    assert_eq!(simulator.builders()[0].ticks_to_start, 0);
    simulator.simulate(&p);
    assert_eq!(simulator.tick(), 6);
    assert_eq!(simulator.resource(), 101);
}

#[test]
fn assign_same_task_keeps_walk() {
    let p = properties();
    let mut simulator = BuildSimulator::new(
        0,
        0,
        vec![Builder { task: BuildTask::Harvest, ticks_to_start: 2 }],
        Vec::new(),
    );
    simulator.assign(0, BuildTask::Harvest, &p);
    assert_eq!(simulator.builders()[0], Builder { task: BuildTask::Harvest, ticks_to_start: 2 });
}

#[test]
fn build_pays_start_cost_and_opens_construction() {
    let p = properties();
    let mut simulator = BuildSimulator::new(101, 5, vec![idle()], Vec::new());
    simulator.build(0, Building::House, &p);
    assert_eq!(simulator.resource(), 51);
    assert_eq!(
        simulator.constructions(),
        &vec![Construction { id: 0, building: Building::House, need_resource: 50 }]
    );
    assert_eq!(simulator.builders()[0], Builder { task: BuildTask::Build(0), ticks_to_start: 5 });
    simulator.buy_builder(&p);
    assert_eq!(simulator.resource(), 41);
    assert_eq!(simulator.builders().len(), 2);
    assert_eq!(simulator.builders()[1], idle());
}

#[test]
fn new_construction_ids_follow_given_ones() {
    let p = properties();
    let mut simulator = BuildSimulator::new(
        100,
        0,
        vec![idle()],
        vec![
            Construction { id: 3, building: Building::House, need_resource: 10 },
            Construction { id: 7, building: Building::RangedBase, need_resource: 10 },
        ],
    );
    simulator.build(0, Building::House, &p);
    assert_eq!(simulator.constructions()[2].id, 8);
}

#[test]
fn finished_construction_provides_population() {
    let p = properties();
    let mut simulator = BuildSimulator::new(
        10,
        0,
        vec![Builder { task: BuildTask::Build(7), ticks_to_start: 0 }],
        vec![Construction { id: 7, building: Building::House, need_resource: 1 }],
    );
    simulator.simulate(&p);
    assert_eq!(simulator.population_provide(), 5);
    assert_eq!(simulator.buildings(), &vec![1, 0]);
    assert!(simulator.constructions().is_empty());
    assert_eq!(simulator.builders()[0], idle());
    assert_eq!(simulator.resource(), 9);
    assert_eq!(simulator.tick(), 1);
}

#[test]
fn construction_spends_at_most_what_is_there() {
    let p = properties();
    let mut simulator = BuildSimulator::new(
        3,
        0,
        vec![Builder { task: BuildTask::Build(0), ticks_to_start: 0 }],
        vec![Construction { id: 0, building: Building::RangedBase, need_resource: 500 }],
    );
    simulator.simulate(&p);
    assert_eq!(simulator.resource(), 0);
    assert_eq!(simulator.constructions()[0].need_resource, 497);
    assert_eq!(simulator.builders()[0].task, BuildTask::Build(0));
}

#[test]
fn build_properties_index_buildings() {
    assert_eq!(Building::House.index(), 0);
    assert_eq!(Building::RangedBase.index(), 1);
}
