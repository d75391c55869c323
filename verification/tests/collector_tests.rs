use garbage_core::collector::Collector;
use garbage_core::distribution::DistributionShape;

/// A growing collector keeps exactly one formation slot per held item after
/// every insert and remove.
#[test]
fn growing_collector_len_matches_points_after_every_op() {
    let mut c = Collector::growing(2_000, 1_000, 8);
    assert_eq!(c.len(), c.points_len());
    assert!(c.insert(11, None));
    assert_eq!(c.len(), c.points_len());
    assert!(c.insert(22, Some(90_000)));
    assert_eq!(c.len(), c.points_len());
    assert!(c.insert(33, Some(200_000)));
    assert_eq!(c.len(), c.points_len());
    assert_eq!(c.remove(22), Some(22));
    assert_eq!(c.len(), c.points_len());
    assert_eq!(c.remove(99), None);
    assert_eq!(c.len(), c.points_len());
    assert_eq!(c.len(), 2);
}

#[test]
fn insert_rejects_when_full() {
    let mut c = Collector::growing(2_000, 1_000, 2);
    assert!(c.insert(1, None));
    assert!(c.insert(2, None));
    assert!(!c.insert(3, None));
    assert_eq!(c.len(), 2);
    assert_eq!(c.points_len(), 2);
}

/// Inserting an item and immediately removing it restores the collector:
/// held count, cached slots and radius all return to their pre-insert
/// values.
#[test]
fn insert_then_remove_restores_state() {
    let mut c = Collector::growing(2_000, 1_000, 8);
    assert!(c.insert(1, None));
    assert!(c.insert(2, Some(45_000)));
    let len0 = c.len();
    let radius0 = c.radius();
    let points0: Vec<_> = c.distribution().points().iter().copied().collect();
    assert!(c.insert(7, Some(200_000)));
    assert_eq!(c.remove(7), Some(7));
    assert_eq!(c.len(), len0);
    assert_eq!(c.radius(), radius0);
    let points1 = c.distribution().points();
    assert_eq!(points1.len(), points0.len());
    for (i, p) in points1.iter().enumerate() {
        assert_eq!(*p, points0[i]);
    }
}

#[test]
fn fixed_collector_radius_is_constant() {
    let mut c = Collector::fixed(5_000, 1_000, 4, 12);
    assert_eq!(c.radius(), 5_000);
    assert_eq!(c.points_len(), 12);
    assert!(c.insert(1, None));
    assert!(c.insert(2, Some(90_000)));
    assert_eq!(c.radius(), 5_000);
    // A fixed collector never re-sizes its slot ring.
    assert_eq!(c.points_len(), 12);
    assert_eq!(c.len(), 2);
    assert!(!c.is_empty());
}

#[test]
fn growing_collector_radius_scales_with_count() {
    let mut c = Collector::growing(2_000, 1_000, 30);
    for i in 0..20 {
        assert!(c.insert(i, None));
    }
    // Twenty items spaced one unit apart: radius 20 / 2 pi.
    assert_eq!(c.radius(), 3_183);
}

#[test]
fn set_shape_keeps_slot_count() {
    let mut c = Collector::growing(2_000, 1_000, 8);
    assert!(c.insert(1, None));
    assert!(c.insert(2, None));
    assert!(matches!(c.shape(), DistributionShape::Circle));
    c.set_shape(DistributionShape::Arc);
    assert!(matches!(c.shape(), DistributionShape::Arc));
    assert_eq!(c.points_len(), 2);
    c.set_shape(DistributionShape::Circle);
    assert_eq!(c.points_len(), 2);
}

/// A throw with no held items aligned returns nothing and mutates nothing.
#[test]
fn throw_collected_empty_returns_none() {
    let c = Collector::growing(2_000, 1_000, 8);
    assert!(c.throw_collected(10_000, 5_000).is_none());
    assert_eq!(c.len(), 0);
}

#[test]
fn throw_collected_picks_aligned_item() {
    let mut c = Collector::growing(2_000, 1_000, 8);
    assert!(c.insert(41, None));
    assert!(c.insert(42, None));
    // Two slots: one at the facing angle, one half a turn away.
    let cmd = c.throw_collected(170_000, 5_000).unwrap();
    assert_eq!(cmd.item, 42);
    assert_eq!(cmd.direction, 170_000);
    assert_eq!(cmd.force, 5_000);
    // The collector itself is untouched until the command is applied.
    assert_eq!(c.len(), 2);
}

/// A fixed collector whose ring has more slots than held items reports a
/// desync as `None` instead of picking a missing item.
#[test]
fn throw_collected_desync_returns_none() {
    let mut c = Collector::fixed(5_000, 1_000, 4, 8);
    assert!(c.insert(1, None));
    // Slot 4 is half a turn away; only index 0 has an item.
    assert!(c.throw_collected(180_000, 5_000).is_none());
    assert!(c.throw_collected(1_000, 5_000).is_some());
}

#[test]
fn auto_rotate_circle_spins_by_constant_edge_speed() {
    let mut c = Collector::growing(2_000, 1_000, 8);
    assert!(c.insert(1, None));
    let before = c.distribution().points()[0].angle;
    // One second at tangential speed 10 units on a 2-unit radius: 5 radians,
    // which is 286.48 degrees.
    c.auto_rotate(1_000, 0);
    let after = c.distribution().points()[0].angle;
    assert_eq!(after, (before + 286_480) % 360_000);
}

#[test]
fn auto_rotate_arc_faces_forward() {
    let mut c = Collector::growing(2_000, 1_000, 8);
    assert!(c.insert(1, None));
    assert!(c.insert(2, None));
    c.set_shape(DistributionShape::Arc);
    let before: Vec<_> = c.distribution().points().iter().copied().collect();
    c.auto_rotate(16, 90_000);
    let after = c.distribution().points();
    for (i, p) in after.iter().enumerate() {
        assert_eq!(p.radius, before[i].radius);
        assert_eq!(p.angle, (before[i].angle + 90_000) % 360_000);
    }
}
