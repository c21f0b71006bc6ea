use codecraft_bot::entity_type::EntityType;
use codecraft_bot::groups::{Group, GroupState};
use codecraft_bot::vec2::Vec2i;

/// A group needing two melee and three ranged units.
fn need() -> Vec<Option<usize>> {
    let mut need = vec![None; 10];
    need[EntityType::MeleeUnit.index()] = Some(2);
    need[EntityType::RangedUnit.index()] = Some(3);
    need
}

#[test]
fn new_group_has_none_of_what_it_needs() {
    let group = Group::new(4, need());
    assert_eq!(group.id(), 4);
    assert_eq!(group.state(), GroupState::New);
    assert_eq!(group.target(), None);
    assert!(group.is_empty());
    assert_eq!(group.units_count(), 0);
    assert_eq!(group.position(), Vec2i::new(0, 0));
    assert_eq!(group.has()[EntityType::MeleeUnit.index()], Some(0));
    assert_eq!(group.has()[EntityType::RangedUnit.index()], Some(0));
    assert_eq!(group.has()[EntityType::BuilderUnit.index()], None);
    assert_eq!(group.need_count(), 5);
    assert!(!group.is_full());
    assert!(group.need_more_of(&EntityType::MeleeUnit));
    assert!(!group.need_more_of(&EntityType::BuilderUnit));
}

#[test]
fn group_fills_up_unit_by_unit() {
    let mut group = Group::new(1, need());
    group.add_unit(10, EntityType::MeleeUnit);
    group.add_unit(11, EntityType::MeleeUnit);
    assert!(!group.need_more_of(&EntityType::MeleeUnit));
    assert!(!group.is_full());
    group.add_unit(12, EntityType::RangedUnit);
    group.add_unit(13, EntityType::RangedUnit);
    group.add_unit(14, EntityType::RangedUnit);
    assert!(group.is_full());
    assert_eq!(group.units_count(), 5);
    assert_eq!(group.units()[2], (12, EntityType::RangedUnit));
}

#[test]
fn remove_undoes_add() {
    let mut group = Group::new(1, need());
    group.add_unit(10, EntityType::MeleeUnit);
    let units = group.units().clone();
    let has = group.has().clone();
    group.add_unit(20, EntityType::RangedUnit);
    group.remove_unit(20);
    assert_eq!(group.units(), &units);
    assert_eq!(group.has(), &has);
}

#[test]
fn removing_an_absent_unit_changes_nothing() {
    let mut group = Group::new(1, need());
    group.add_unit(10, EntityType::MeleeUnit);
    group.remove_unit(99);
    assert_eq!(group.units_count(), 1);
    assert_eq!(group.has()[EntityType::MeleeUnit.index()], Some(1));
}

#[test]
fn clear_empties_the_group() {
    let mut group = Group::new(1, need());
    group.add_unit(10, EntityType::MeleeUnit);
    group.add_unit(11, EntityType::RangedUnit);
    group.clear();
    assert!(group.is_empty());
    assert_eq!(group.has()[EntityType::MeleeUnit.index()], Some(0));
    assert_eq!(group.has()[EntityType::RangedUnit.index()], Some(0));
    assert_eq!(group.has()[EntityType::Turret.index()], None);
}

#[test]
fn group_target_and_state_are_kept() {
    let mut group = Group::new(1, need());
    group.set_target(Some(Vec2i::new(30, 40)));
    group.set_state(GroupState::Ready);
    assert_eq!(group.target(), Some(Vec2i::new(30, 40)));
    assert_eq!(group.state(), GroupState::Ready);
    assert!(GroupState::New < GroupState::Ready);
}
