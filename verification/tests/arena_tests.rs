use garbage_core::arena::{Arena, ItemState, LAYER_ALL, THROW_DAMAGE};
use garbage_core::collector::Collector;
use garbage_core::ObjectLayer;

fn arena_with_collector() -> (Arena, usize) {
    let mut w = Arena::new();
    let c = w.spawn_collector(Collector::growing(2_000, 1_000, 4), ObjectLayer::Enemy);
    (w, c)
}

/// Entering the held state registers the item and applies both physics side
/// effects in the same mutation: the collector layers leave the filter mask
/// and gravity drops to zero.
#[test]
fn collect_applies_entry_side_effects() {
    let (mut w, c) = arena_with_collector();
    let i = w.spawn_item(2_000);
    assert!(w.collect(c, i, Some(30_000)));
    let rec = w.item(i);
    assert!(matches!(rec.state, ItemState::Held { collector } if collector == c));
    assert_eq!(rec.gravity, 0);
    // All bits except the collector layer (32) and the configured enemy
    // layer (2).
    assert_eq!(rec.filters, LAYER_ALL & !32 & !2);
    assert_eq!(rec.damage, 0);
    assert_eq!(w.collector(c).len(), 1);
}

/// Leaving the held state restores the default filter mask and full gravity.
#[test]
fn release_restores_defaults() {
    let (mut w, c) = arena_with_collector();
    let i = w.spawn_item(2_000);
    assert!(w.collect(c, i, None));
    assert!(w.release(i));
    let rec = w.item(i);
    assert!(matches!(rec.state, ItemState::Free));
    assert_eq!(rec.gravity, 1_000);
    assert_eq!(rec.filters, LAYER_ALL);
    assert_eq!(w.collector(c).len(), 0);
    // Releasing an item that is not held is a benign no-op.
    assert!(!w.release(i));
}

/// A full collector rejects the pickup and the item keeps its free state.
#[test]
fn collect_rejects_at_capacity() {
    let mut w = Arena::new();
    let c = w.spawn_collector(Collector::growing(2_000, 1_000, 1), ObjectLayer::Enemy);
    let a = w.spawn_item(1_000);
    let b = w.spawn_item(1_000);
    assert!(w.collect(c, a, None));
    assert!(!w.collect(c, b, None));
    assert!(matches!(w.item(b).state, ItemState::Free));
    assert_eq!(w.item(b).gravity, 1_000);
    assert_eq!(w.collector(c).len(), 1);
}

/// A successful throw removes exactly one item from the held list and leaves
/// it in flight — not held — with the flight damage and an impulse of force
/// times mass.
#[test]
fn throw_launches_aligned_item() {
    let (mut w, c) = arena_with_collector();
    let i = w.spawn_item(2_000);
    assert!(w.collect(c, i, None));
    let out = w.throw(c, 10_000, 5_000).unwrap();
    assert_eq!(out.item, i);
    assert_eq!(out.direction, 10_000);
    assert_eq!(out.impulse, 5_000 * 2_000 / 1_000);
    assert_eq!(w.collector(c).len(), 0);
    let rec = w.item(i);
    assert!(matches!(rec.state, ItemState::Thrown { collector, flight_ms: 0 } if collector == c));
    assert_eq!(rec.damage, THROW_DAMAGE);
    assert_eq!(rec.gravity, 1_000);
    assert_eq!(rec.filters, LAYER_ALL);
}

/// A throw with nothing aligned returns nothing and performs no mutation.
#[test]
fn throw_on_empty_collector_is_a_no_op() {
    let (mut w, c) = arena_with_collector();
    let i = w.spawn_item(2_000);
    assert!(w.throw(c, 10_000, 5_000).is_none());
    assert_eq!(w.collector(c).len(), 0);
    assert!(matches!(w.item(i).state, ItemState::Free));
}

/// The flight ends exactly when the minimum flight time has passed and the
/// item has slowed to the stop threshold.
#[test]
fn thrown_item_expires_when_slow_and_old() {
    let (mut w, c) = arena_with_collector();
    let i = w.spawn_item(2_000);
    assert!(w.collect(c, i, None));
    w.throw(c, 0, 9_000).unwrap();
    // Too young, even though it is slow.
    assert!(!w.step_thrown(i, 500, 0));
    assert!(matches!(w.item(i).state, ItemState::Thrown { flight_ms: 500, .. }));
    // Old enough, but still too fast.
    assert!(!w.step_thrown(i, 500, 12_000_001));
    assert!(matches!(w.item(i).state, ItemState::Thrown { flight_ms: 1_000, .. }));
    // Old enough and slow enough: the flight ends and the damage drops away.
    assert!(w.step_thrown(i, 16, 12_000_000));
    let rec = w.item(i);
    assert!(matches!(rec.state, ItemState::Free));
    assert_eq!(rec.damage, 0);
    // Stepping a settled item does nothing.
    assert!(!w.step_thrown(i, 16, 0));
}

/// A contact between an item in flight from collector A and an item held by
/// the same collector A is discarded; the same pair held by collector B is
/// kept.
#[test]
fn contact_filter_spares_same_collector_pairs() {
    let mut w = Arena::new();
    let a = w.spawn_collector(Collector::growing(2_000, 1_000, 4), ObjectLayer::Enemy);
    let b = w.spawn_collector(Collector::growing(2_000, 1_000, 4), ObjectLayer::Enemy);
    let flying = w.spawn_item(1_000);
    let held = w.spawn_item(1_000);
    assert!(w.collect(a, flying, None));
    assert!(w.collect(a, held, None));
    w.throw(a, 0, 5_000).unwrap();
    assert!(matches!(w.item(flying).state, ItemState::Thrown { .. }));
    // Same origin: the pair is discarded, in either order.
    assert!(!w.retain_contact(flying, held));
    assert!(!w.retain_contact(held, flying));
    // Re-home the held item to collector B: the pair is retained.
    assert!(w.release(held));
    assert!(w.collect(b, held, None));
    assert!(w.retain_contact(flying, held));
    assert!(w.retain_contact(held, flying));
    // Pairs without a flight or without a held side are retained.
    let free = w.spawn_item(1_000);
    assert!(w.retain_contact(flying, free));
    assert!(w.retain_contact(held, free));
}

/// The arena-level reorientation spins the formation without touching the
/// held list or any item.
#[test]
fn arena_auto_rotate_spins_only_the_formation() {
    let (mut w, c) = arena_with_collector();
    let i = w.spawn_item(2_000);
    assert!(w.collect(c, i, None));
    let before = w.collector(c).distribution().points()[0];
    let rec_before = w.item(i);
    w.auto_rotate(c, 1_000, 0);
    let after = w.collector(c).distribution().points()[0];
    assert_eq!(after.radius, before.radius);
    assert_eq!(after.angle, (before.angle + 286_480) % 360_000);
    assert_eq!(w.collector(c).len(), 1);
    assert_eq!(w.item(i), rec_before);
}

/// Destroying a collector forcibly clears every item it still holds before
/// the slot goes dead: no dangling back-references.
#[test]
fn despawn_collector_clears_held_items() {
    let (mut w, c) = arena_with_collector();
    let a = w.spawn_item(1_000);
    let b = w.spawn_item(1_000);
    let other = w.spawn_item(1_000);
    assert!(w.collect(c, a, None));
    assert!(w.collect(c, b, Some(120_000)));
    w.despawn_collector(c);
    assert!(!w.is_alive(c));
    assert_eq!(w.collector(c).len(), 0);
    for i in [a, b] {
        let rec = w.item(i);
        assert!(matches!(rec.state, ItemState::Free));
        assert_eq!(rec.gravity, 1_000);
        assert_eq!(rec.filters, LAYER_ALL);
    }
    assert!(matches!(w.item(other).state, ItemState::Free));
}
