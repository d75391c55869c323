use garbage_core::distribution::{DistributionShape, PointDistribution};
use garbage_core::spine::{drive_velocity, isqrt, GarbageBody, Vec3M};

#[test]
fn isqrt_exact_and_floor() {
    assert_eq!(isqrt(0), 0);
    assert_eq!(isqrt(1), 1);
    assert_eq!(isqrt(3), 1);
    assert_eq!(isqrt(4), 2);
    assert_eq!(isqrt(125_250_000), 11_191);
    assert_eq!(isqrt(u64::MAX), 4_294_967_295);
}

#[test]
fn new_body_lays_nodes_along_z() {
    let body = GarbageBody::new(3, Vec3M { x: 0, y: 0, z: 0 }, 2_000, 500);
    assert_eq!(body.len(), 3);
    assert_eq!(body.full_length(), 6_000);
    for i in 0..3 {
        let n = body.node(i);
        assert_eq!(n.position, Vec3M { x: 0, y: 0, z: (i as i64) * 1_000 });
        assert_eq!(n.direction, Vec3M { x: 0, y: 0, z: 1_000 });
    }
}

/// One follow step: the head snaps to the owner pushed half a unit forward,
/// each later node is pulled to exactly the node spacing from its settled
/// predecessor along the line that joined them.
#[test]
fn follow_owner_pulls_the_chain() {
    let mut body = GarbageBody::new(3, Vec3M { x: 0, y: 0, z: 0 }, 2_000, 500);
    body.follow_owner(
        Vec3M { x: 10_000, y: 5_000, z: 0 },
        Vec3M { x: 0, y: 0, z: 1_000 },
    );
    let head = body.node(0);
    assert_eq!(head.position, Vec3M { x: 10_000, y: 5_000, z: 500 });
    assert_eq!(head.direction, Vec3M { x: 0, y: 0, z: 1_000 });
    let n1 = body.node(1);
    assert_eq!(n1.position, Vec3M { x: 8_214, y: 4_108, z: 588 });
    assert_eq!(n1.direction, Vec3M { x: -893, y: -446, z: 44 });
    let n2 = body.node(2);
    assert_eq!(n2.position, Vec3M { x: 6_446, y: 3_224, z: 890 });
    assert_eq!(n2.direction, Vec3M { x: -884, y: -442, z: 151 });
}

/// Nodes never sink below the floor height: a chain pulled straight down is
/// clamped to one unit above the ground.
#[test]
fn follow_owner_clamps_to_floor() {
    let mut body = GarbageBody::new(2, Vec3M { x: 0, y: 20_000, z: 0 }, 2_000, 0);
    // The owner dives far below the second node.
    body.follow_owner(
        Vec3M { x: 0, y: -50_000, z: 0 },
        Vec3M { x: 0, y: 1_000, z: 0 },
    );
    let n1 = body.node(1);
    assert_eq!(n1.position.y, 1_000);
}

/// The slot mapping attaches the whole flat slot set to successive chain
/// nodes until enough frames exist or the chain runs out.
#[test]
fn slot_frames_walk_the_chain() {
    let body = GarbageBody::new(3, Vec3M { x: 0, y: 0, z: 0 }, 2_000, 0);
    let mut d = PointDistribution::new(2_000, 1_000);
    d.update(2, DistributionShape::Circle);
    // Five positions need three nodes of two slots each.
    let frames = body.compute_slot_frames(5, &d);
    assert_eq!(frames.len(), 6);
    for (k, (node, point)) in frames.iter().enumerate() {
        assert_eq!(*node, body.node(k / 2));
        assert_eq!(*point, d.points()[k % 2]);
    }
    // Asking for more than the chain can carry exhausts the chain.
    let frames = body.compute_slot_frames(100, &d);
    assert_eq!(frames.len(), 6);
    // Nothing requested, nothing produced.
    let frames = body.compute_slot_frames(0, &d);
    assert_eq!(frames.len(), 0);
}

/// The position drive commands a speed proportional to the distance, capped
/// at the item speed limit along the same direction.
#[test]
fn drive_velocity_is_proportional_then_clamped() {
    let at = |x: i64, y: i64, z: i64| Vec3M { x, y, z };
    // One unit away: ten units per second toward the slot.
    let v = drive_velocity(at(0, 0, 0), at(1_000, 0, 0));
    assert_eq!(v, at(10_000, 0, 0));
    // Far away: clamped to ninety units per second.
    let v = drive_velocity(at(0, 0, 0), at(100_000, 0, 0));
    assert_eq!(v, at(90_000, 0, 0));
    // A diagonal clamp keeps the direction: a 3-4-5 triangle.
    let v = drive_velocity(at(0, 0, 0), at(30_000, 0, 40_000));
    assert_eq!(v, at(54_000, 0, 72_000));
    // Already in place: no drive.
    let v = drive_velocity(at(5, 5, 5), at(5, 5, 5));
    assert_eq!(v, at(0, 0, 0));
}
