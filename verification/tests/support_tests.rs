use codecraft_bot::bot::get_player_initial_builder_base_position;
use codecraft_bot::config::Config;
use codecraft_bot::debug::Control;
use codecraft_bot::entity_type::{
    is_entity_type_base, is_entity_type_unit, is_protected_entity_type, EntityType,
};
use codecraft_bot::range::{Range, SizedRange};
use codecraft_bot::stats::Stats;
use codecraft_bot::vec2::Vec2i;

#[test]
fn stats_count_plan_cost_and_longest_tick() {
    let mut stats = Stats::new();
    stats.add_entity_plan_cost(5);
    stats.add_entity_plan_cost(3);
    assert_eq!(stats.total_entity_plan_cost(), 8);
    let result = stats.get_result();
    assert_eq!(result.total_entity_plan_cost, 8);
    assert_eq!(result.last_tick_entity_plan_cost, 3);
    stats.set_last_tick_duration(100);
    let result = stats.get_result();
    assert_eq!(result.last_tick_duration, 100);
    assert_eq!(result.max_tick_duration, 100);
    assert_eq!(result.max_tick_entity_plan_cost, 3);
    stats.add_entity_plan_cost(7);
    stats.set_last_tick_duration(50);
    let result = stats.get_result();
    assert_eq!(result.last_tick_duration, 50);
    assert_eq!(result.max_tick_duration, 100);
    assert_eq!(result.max_tick_entity_plan_cost, 3);
}

#[test]
fn stats_count_paths() {
    let mut stats = Stats::new();
    stats.add_find_hidden_path_calls(2);
    stats.add_find_hidden_path_calls(4);
    stats.add_path_updates(1);
    let result = stats.get_result();
    assert_eq!(result.find_hidden_path_calls, 6);
    assert_eq!(result.reachability_updates, 1);
    assert_eq!(result.total_entity_plan_cost, 0);
}

#[test]
fn config_defaults() {
    let config = Config::new();
    assert_eq!(config.entity_plan_min_depth, 1);
    assert_eq!(config.entity_plan_max_depth, 4);
    assert_eq!(config.entity_plan_max_transitions, 200);
    assert_eq!(config.entity_plan_max_cost_per_tick, 100000);
    assert_eq!(config.entity_plan_max_total_cost, 10000000);
    assert_eq!(config.min_player_inactive_ticks, 5);
    assert_eq!(config.engage_distance, 1);
    assert_eq!(config.battle_plan_min_depth, 1);
    assert_eq!(config.battle_plan_max_depth, 7);
    assert_eq!(config.battle_plan_max_transitions, 100000);
    assert_eq!(config.battle_plan_max_cost_per_tick, 1000000);
    assert_eq!(config.battle_plan_max_total_cost, 100000000);
}

#[test]
fn initial_builder_base_positions() {
    assert_eq!(get_player_initial_builder_base_position(1, 80, 5), Vec2i::new(5, 5));
    assert_eq!(get_player_initial_builder_base_position(2, 80, 5), Vec2i::new(70, 70));
    assert_eq!(get_player_initial_builder_base_position(3, 80, 5), Vec2i::new(70, 5));
    assert_eq!(get_player_initial_builder_base_position(4, 80, 5), Vec2i::new(5, 70));
    assert_eq!(get_player_initial_builder_base_position(7, 80, 5), Vec2i::new(40, 40));
}

fn keys(names: &[&str]) -> Vec<String> {
    names.iter().map(|v| v.to_string()).collect()
}

#[test]
fn control_toggles_overlays_on_release() {
    let mut control = Control::default();
    control.update(&keys(&["LCtrl", "Q"]));
    assert!(!control.show_field);
    control.update(&keys(&["LCtrl"]));
    assert!(control.show_field);
    control.update(&keys(&["LCtrl", "W"]));
    control.update(&keys(&["LCtrl"]));
    assert!(control.show_group_field);
    assert!(!control.show_field);
    control.update(&keys(&["LCtrl", "R"]));
    control.update(&keys(&["LCtrl"]));
    assert!(control.show_group_planner);
    assert!(!control.show_group_field);
    control.update(&keys(&["LCtrl", "R"]));
    control.update(&keys(&["LCtrl"]));
    assert!(!control.show_group_planner);
}

#[test]
fn control_selects_groups() {
    let mut control = Control::default();
    control.update(&keys(&["LShift", "D"]));
    control.update(&keys(&["LShift"]));
    control.update(&keys(&["LShift", "D"]));
    control.update(&keys(&["LShift"]));
    assert_eq!(control.selected_group, 2);
    control.update(&keys(&["LShift", "A"]));
    control.update(&keys(&["LShift"]));
    assert_eq!(control.selected_group, 1);
    control.update(&keys(&["D"]));
    control.update(&keys(&[]));
    assert_eq!(control.selected_group, 1);
}

#[test]
fn vec2_operations() {
    let a = Vec2i::new(3, -4);
    let b = Vec2i::new(-1, 2);
    assert_eq!(a.lowest(b), Vec2i::new(-1, -4));
    assert_eq!(a.highest(b), Vec2i::new(3, 2));
    assert_eq!(a.abs(), Vec2i::new(3, 4));
    assert_eq!(a.sum(), -1);
    assert_eq!(a.product(), -12);
    assert_eq!(a.distance(b), 10);
    assert_eq!(a + b, Vec2i::new(2, -2));
    assert_eq!(a - b, Vec2i::new(4, -6));
    assert_eq!(a.with_x(0), Vec2i::new(0, -4));
    assert_eq!(a.with_y(0), Vec2i::new(3, 0));
    assert_eq!(Vec2i::only_x(2), Vec2i::new(2, 0));
    assert_eq!(Vec2i::only_y(2), Vec2i::new(0, 2));
}

#[test]
fn ranges_measure_distance() {
    let range = Range::new(Vec2i::new(5, 5), 2);
    assert_eq!(range.distance(Vec2i::new(6, 7)), 3);
    assert!(!range.contains(Vec2i::new(6, 7)));
    assert!(range.contains(Vec2i::new(6, 6)));
    let sized = SizedRange::new(Vec2i::new(10, 10), 3, 1);
    assert!(sized.contains(Vec2i::new(12, 12)));
    assert_eq!(sized.distance(Vec2i::new(12, 12)), 0);
}

#[test]
fn entity_type_kinds() {
    assert!(is_entity_type_base(&EntityType::RangedBase));
    assert!(!is_entity_type_base(&EntityType::RangedUnit));
    assert!(is_entity_type_unit(&EntityType::MeleeUnit));
    assert!(!is_entity_type_unit(&EntityType::Turret));
    assert!(is_protected_entity_type(&EntityType::House));
    assert!(is_protected_entity_type(&EntityType::BuilderUnit));
    assert!(!is_protected_entity_type(&EntityType::RangedUnit));
    assert_eq!(EntityType::Resource.index(), 8);
}
