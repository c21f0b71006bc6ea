use codecraft_bot::entity_type::EntityType;
use codecraft_bot::roles::Role;
use codecraft_bot::tasks::{
    BuildBuildingTask, BuildUnitsTask, ClearAreaTask, GatherGroupTask, Task, TaskManager, TaskStatus, TasksCount,
};
use codecraft_bot::vec2::Vec2i;

fn counts(c: &TasksCount) -> [usize; 8] {
    [
        c.build_builders,
        c.build_house,
        c.build_turret,
        c.build_builder_base,
        c.build_melee_base,
        c.build_ranged_base,
        c.gather_group,
        c.repair_buildings,
    ]
}

#[test]
fn new_manager_counts_nothing() {
    let manager = TaskManager::new();
    assert_eq!(counts(manager.stats()), [0; 8]);
    assert_eq!(counts(&TasksCount::default()), [0; 8]);
}

#[test]
fn pushed_tasks_are_counted_by_kind() {
    let mut manager = TaskManager::new();
    manager.push_back(Task::build_building(EntityType::House));
    manager.push_back(Task::build_building(EntityType::House));
    manager.push_front(Task::BuildBuilders);
    manager.push_back(Task::build_building(EntityType::Turret));
    manager.push_back(Task::build_building(EntityType::RangedBase));
    manager.push_back(Task::gather_group(7));
    manager.push_back(Task::RepairBuildings);
    manager.push_back(Task::HarvestResources);
    manager.push_back(Task::build_units(EntityType::RangedUnit, 3));
    manager.push_back(Task::clear_area(Vec2i::new(4, 5), 3));
    manager.push_back(Task::build_building(EntityType::Wall));
    assert_eq!(counts(manager.stats()), [1, 2, 1, 0, 0, 1, 1, 1]);
}

#[test]
fn finished_tasks_leave_and_are_no_longer_counted() {
    let mut manager = TaskManager::new();
    manager.push_back(Task::build_building(EntityType::House));
    manager.push_back(Task::BuildBuilders);
    manager.push_back(Task::build_building(EntityType::MeleeBase));
    manager.push_back(Task::build_building(EntityType::BuilderBase));
    manager.update(&vec![TaskStatus::Done, TaskStatus::Wait, TaskStatus::Fail, TaskStatus::Wait]);
    assert_eq!(counts(manager.stats()), [1, 0, 0, 1, 0, 0, 0, 0]);
    manager.update(&vec![TaskStatus::Wait, TaskStatus::Done]);
    assert_eq!(counts(manager.stats()), [1, 0, 0, 0, 0, 0, 0, 0]);
    manager.update(&vec![TaskStatus::Fail]);
    assert_eq!(counts(manager.stats()), [0; 8]);
    manager.update(&vec![]);
    assert_eq!(counts(manager.stats()), [0; 8]);
}

#[test]
fn waiting_tasks_stay() {
    let mut manager = TaskManager::new();
    manager.push_back(Task::gather_group(1));
    manager.push_front(Task::gather_group(2));
    manager.update(&vec![TaskStatus::Wait, TaskStatus::Wait]);
    assert_eq!(counts(manager.stats()), [0, 0, 0, 0, 0, 0, 2, 0]);
}

#[test]
fn task_statuses_are_ordered() {
    assert!(TaskStatus::Wait < TaskStatus::Done);
    assert!(TaskStatus::Done < TaskStatus::Fail);
    assert_eq!(TaskStatus::Wait, TaskStatus::Wait);
}

#[test]
fn task_constructors_build_their_variants() {
    assert!(matches!(Task::build_building(EntityType::House), Task::BuildBuilding(_)));
    assert!(matches!(Task::gather_group(3), Task::GatherGroup(_)));
    assert!(matches!(Task::build_units(EntityType::MeleeUnit, 2), Task::BuildUnits(_)));
    assert!(matches!(Task::clear_area(Vec2i::new(1, 2), 4), Task::ClearArea(_)));
    let _ = BuildBuildingTask::new(EntityType::Turret);
    let _ = GatherGroupTask::new(1);
    let _ = BuildUnitsTask::new(EntityType::RangedUnit, 5);
    let _ = ClearAreaTask::new(Vec2i::new(0, 0), 2);
}

#[test]
fn only_unit_builders_hold_a_temporary_role() {
    assert!(Role::UnitBuilder.is_temporary());
    assert!(!Role::Idle.is_temporary());
    assert!(!Role::Harvester { resource_id: 3 }.is_temporary());
    assert!(!Role::GroupMember { group_id: 1 }.is_temporary());
    assert!(!Role::BuildingBuilder { position: Vec2i::new(1, 2), entity_type: EntityType::House }.is_temporary());
}
