use garbage_core::angle::{add_angle, angle_between, reduce_angle, sub_angle, FULL_TURN};
use garbage_core::items::GarbageItem;
use garbage_core::{toggle_pause, GameState, ObjectLayer};

#[test]
fn angles_wrap_at_a_full_turn() {
    assert_eq!(add_angle(350_000, 20_000), 10_000);
    assert_eq!(add_angle(0, 0), 0);
    assert_eq!(sub_angle(10_000, 20_000), 350_000);
    assert_eq!(sub_angle(20_000, 10_000), 10_000);
    assert_eq!(reduce_angle(FULL_TURN + 5), 5);
}

#[test]
fn circular_distance_takes_the_short_way() {
    assert_eq!(angle_between(350_000, 10_000), 20_000);
    assert_eq!(angle_between(10_000, 350_000), 20_000);
    assert_eq!(angle_between(0, 180_000), 180_000);
    assert_eq!(angle_between(90_000, 90_000), 0);
}

#[test]
fn pause_toggle_alternates() {
    assert!(matches!(toggle_pause(GameState::Running), GameState::Pause));
    assert!(matches!(toggle_pause(GameState::Pause), GameState::Running));
}

#[test]
fn layer_masks_are_single_bits() {
    assert_eq!(ObjectLayer::Player.mask(), 1);
    assert_eq!(ObjectLayer::Enemy.mask(), 2);
    assert_eq!(ObjectLayer::Terrain.mask(), 4);
    assert_eq!(ObjectLayer::Bullet.mask(), 8);
    assert_eq!(ObjectLayer::Collectible.mask(), 16);
    assert_eq!(ObjectLayer::Collector.mask(), 32);
}

#[test]
fn layout_characters_map_to_items() {
    assert!(matches!(GarbageItem::from_char('c'), Some(GarbageItem::Cube)));
    assert!(matches!(GarbageItem::from_char('p'), Some(GarbageItem::Plank)));
    assert!(matches!(GarbageItem::from_char('P'), Some(GarbageItem::LargePlank)));
    assert!(matches!(GarbageItem::from_char('|'), Some(GarbageItem::Column)));
    assert!(matches!(GarbageItem::from_char('I'), Some(GarbageItem::LargeColumn)));
    assert!(matches!(GarbageItem::from_char('b'), Some(GarbageItem::Block)));
    assert!(matches!(GarbageItem::from_char('B'), Some(GarbageItem::LargeBlock)));
    assert!(matches!(GarbageItem::from_char('^'), Some(GarbageItem::Cone)));
    assert!(matches!(GarbageItem::from_char('o'), Some(GarbageItem::Ball)));
    assert!(GarbageItem::from_char('x').is_none());
    assert!(GarbageItem::from_char(' ').is_none());
}
