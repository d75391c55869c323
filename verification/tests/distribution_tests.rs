use garbage_core::distribution::{DistributionShape, PointDistribution};

/// Four slots at the minimum radius: the computed ring (about 0.64 units)
/// is smaller, so the minimum dominates.
#[test]
fn circle_four_slots_uses_min_radius() {
    let mut d = PointDistribution::new(2_000, 1_000);
    d.update(4, DistributionShape::Circle);
    assert_eq!(d.points().len(), 4);
    assert_eq!(d.radius(4), 2_000);
}

/// Twenty slots spaced one unit apart need a ring of circumference twenty:
/// radius 20 / 2 pi, about 3.183 units.
#[test]
fn circle_twenty_slots_radius_grows() {
    let d = PointDistribution::new(2_000, 1_000);
    assert_eq!(d.radius(20), 3_183);
}

#[test]
fn circle_slots_evenly_spaced() {
    let mut d = PointDistribution::new(2_000, 1_000);
    d.update(4, DistributionShape::Circle);
    let pts = d.points();
    assert_eq!(pts[0].angle, 0);
    assert_eq!(pts[1].angle, 90_000);
    assert_eq!(pts[2].angle, 180_000);
    assert_eq!(pts[3].angle, 270_000);
    for p in pts.iter() {
        assert_eq!(p.radius, 2_000);
    }
}

#[test]
fn arc_slots_fan_out_in_bands() {
    let mut d = PointDistribution::new(2_000, 1_000);
    d.update(4, DistributionShape::Arc);
    let pts = d.points();
    assert_eq!(pts.len(), 4);
    // First band at the base radius: straight ahead, then one spacing
    // clockwise.
    assert_eq!((pts[0].angle, pts[0].radius), (0, 2_000));
    assert_eq!((pts[1].angle, pts[1].radius), (331_352, 2_000));
    // The third slot would pass the 45-degree cap, so a new band starts one
    // spacing further out.
    assert_eq!((pts[2].angle, pts[2].radius), (0, 3_000));
    assert_eq!((pts[3].angle, pts[3].radius), (340_902, 3_000));
}

#[test]
fn rotate_turns_every_slot() {
    let mut d = PointDistribution::new(2_000, 1_000);
    d.update(4, DistributionShape::Circle);
    d.rotate(30_000);
    let pts = d.points();
    assert_eq!(pts[0].angle, 30_000);
    assert_eq!(pts[1].angle, 120_000);
    assert_eq!(pts[2].angle, 210_000);
    assert_eq!(pts[3].angle, 300_000);
    // A rotation past the full turn wraps.
    d.rotate(359_000);
    assert_eq!(d.points()[0].angle, 29_000);
}

/// Reorienting rotates all cached slots by the signed delta between the old
/// and new facing angle, keeping each slot's distance from the origin and
/// the relative order.
#[test]
fn set_direction_rotates_preserving_radii_and_order() {
    let mut d = PointDistribution::new(2_000, 1_000);
    d.update(4, DistributionShape::Arc);
    let before: Vec<_> = d.points().iter().copied().collect();
    d.set_direction(45_000);
    let after = d.points();
    assert_eq!(after.len(), before.len());
    for (i, p) in after.iter().enumerate() {
        assert_eq!(p.radius, before[i].radius);
        assert_eq!(p.angle, (before[i].angle + 45_000) % 360_000);
    }
}

/// The closest-aligned slot has the smallest circular distance to the
/// queried direction; on an even ring of four the error is at most an
/// eighth of a turn.
#[test]
fn find_closest_aligned_point_picks_minimal_error() {
    let mut d = PointDistribution::new(2_000, 1_000);
    d.update(4, DistributionShape::Circle);
    let (i, p) = d.find_closest_aligned_point(100_000).unwrap();
    assert_eq!(i, 1);
    assert_eq!(p.angle, 90_000);
    assert!(100_000 - p.angle <= 45_000);
    // A direction just past the wrap still lands on the slot at zero.
    let (i, p) = d.find_closest_aligned_point(359_000).unwrap();
    assert_eq!(i, 0);
    assert_eq!(p.angle, 0);
}

/// On an even ring of five slots, every queried direction finds a slot
/// within a tenth of a turn: half the angular step.
#[test]
fn closest_error_bounded_on_even_ring() {
    let mut d = PointDistribution::new(2_000, 1_000);
    d.update(5, DistributionShape::Circle);
    for q in (0..360_000u32).step_by(777) {
        let (_, p) = d.find_closest_aligned_point(q).unwrap();
        let diff = if q >= p.angle { q - p.angle } else { p.angle - q };
        let err = diff.min(360_000 - diff);
        assert!(err <= 36_000, "direction {q} missed by {err}");
    }
}

#[test]
fn find_closest_aligned_point_empty_cache() {
    let d = PointDistribution::new(2_000, 1_000);
    assert!(d.find_closest_aligned_point(10_000).is_none());
}

#[test]
fn update_replaces_the_cache() {
    let mut d = PointDistribution::new(2_000, 1_000);
    d.update(7, DistributionShape::Circle);
    assert_eq!(d.points().len(), 7);
    d.update(2, DistributionShape::Circle);
    assert_eq!(d.points().len(), 2);
    d.update(0, DistributionShape::Circle);
    assert_eq!(d.points().len(), 0);
}
