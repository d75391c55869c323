//! The arena: the single owner of all live collectors and items, and the
//! one funnel through which the held and thrown states change.
//!
//! Every item is owned by the arena under a stable handle; a collector's
//! held list stores handles and each held item carries a back-reference to
//! its collector. The arena keeps the two directions consistent: an item is
//! held by at most one collector, a handle in a held list always points at
//! an item in the matching state, and the physics side effects of a state
//! change (collision-filter bits and gravity scale) are applied in the same
//! mutation as the state itself, so no step observes a half-applied
//! transition.

use vstd::prelude::*;
use crate::ObjectLayer;
use crate::layer_mask;
use crate::angle::norm_angle;
use crate::collector::{
    Collector, CollectorView, collector_wf, collector_radius_spec, spin_delta, insert_model,
    remove_model, closest_index, first_index_of, lemma_first_index_of, lemma_first_index_char,
    lemma_is_closest_exists,
};
use crate::distribution::PolarPoint;

verus! {

/// Every filter bit set: the default collision mask of a free item.
pub const LAYER_ALL: u32 = 0xffff_ffff;

/// Gravity scale of a free or flying item, in thousandths.
pub const FULL_GRAVITY: u64 = 1000;

/// Damage an item deals while in flight.
pub const THROW_DAMAGE: u16 = 10;

/// Flight time below which a thrown item never settles, in milliseconds.
pub const THROW_MIN_MS: u64 = 1000;

/// Squared speed at or below which a thrown item counts as stopped, in
/// squared thousandths of a unit per second.
pub const STOP_SPEED_SQ: u64 = 12_000_000;

/// The largest item mass, in thousandths.
pub const MAX_MASS: u64 = 1_000_000_000;

/// The largest throw force, in thousandths.
pub const MAX_FORCE: u64 = 1_000_000_000;

/// The lifecycle state of one item.
#[derive(Debug, Clone, Copy, PartialEq, Eq, Structural)]
pub enum ItemState {
    /// Simulated freely, not attached to any collector.
    Free,
    /// Held in formation by the referenced collector.
    Held { collector: usize },
    /// Just launched from the referenced collector, with the flight time so
    /// far in milliseconds.
    Thrown { collector: usize, flight_ms: u64 },
}

/// One item: its lifecycle state and the physics properties the lifecycle
/// drives.
#[derive(Debug, Clone, Copy, PartialEq, Eq, Structural)]
pub struct ItemRec {
    /// The lifecycle state.
    pub state: ItemState,
    /// Gravity scale in thousandths: zero while held, full otherwise.
    pub gravity: u64,
    /// Collision filter mask: bits are removed while held.
    pub filters: u32,
    /// Mass in thousandths, fixed at spawn.
    pub mass: u64,
    /// Damage dealt on contact: nonzero exactly while in flight.
    pub damage: u16,
}

/// The mathematical content of the arena.
#[verifier::ext_equal]
pub ghost struct ArenaView {
    pub alive: Seq<bool>,
    pub collectors: Seq<CollectorView>,
    pub filter_out: Seq<ObjectLayer>,
    pub items: Seq<ItemRec>,
}

/// The collector a thrown item came from, if the state is a flight.
pub open spec fn thrown_source(s: ItemState) -> Option<usize> {
    match s {
        ItemState::Thrown { collector, .. } => Some(collector),
        _ => None,
    }
}

/// The collector holding an item, if the state is held.
pub open spec fn held_owner(s: ItemState) -> Option<usize> {
    match s {
        ItemState::Held { collector } => Some(collector),
        _ => None,
    }
}

/// The collision filter mask of a held item: everything except the
/// collector layer and the owner's configured extra layer.
pub open spec fn held_filters(extra: ObjectLayer) -> u32 {
    LAYER_ALL & !layer_mask(ObjectLayer::Collector) & !layer_mask(extra)
}

/// A free item's record, given its mass.
pub open spec fn free_rec(mass: u64) -> ItemRec {
    ItemRec {
        state: ItemState::Free,
        gravity: FULL_GRAVITY,
        filters: LAYER_ALL,
        mass,
        damage: 0,
    }
}

/// Whether a settled flight ends: the minimum flight time has passed and the
/// item has (nearly) stopped.
pub open spec fn flight_over(flight_ms: int, speed_sq: int) -> bool {
    flight_ms >= THROW_MIN_MS && speed_sq <= STOP_SPEED_SQ
}

/// Whether a candidate contact pair survives filtering: it is discarded
/// exactly when one side is in flight from the same collector that still
/// holds the other side.
pub open spec fn retain_spec(s1: ItemState, s2: ItemState) -> bool {
    let thrown = if thrown_source(s2) is Some {
        thrown_source(s2)
    } else {
        thrown_source(s1)
    };
    let held = if held_owner(s2) is Some {
        held_owner(s2)
    } else {
        held_owner(s1)
    };
    match (thrown, held) {
        (Some(t), Some(h)) => t != h,
        _ => true,
    }
}

/// The per-item part of the arena invariant: the physics properties match
/// the lifecycle state, and a held item's back-reference points at a live
/// collector that lists it.
pub open spec fn item_state_ok(v: ArenaView, i: int) -> bool {
    match v.items[i].state {
        ItemState::Free => v.items[i] == free_rec(v.items[i].mass),
        ItemState::Held { collector } => {
            &&& 0 <= collector < v.collectors.len()
            &&& v.alive[collector as int]
            &&& v.collectors[collector as int].collected.contains(i as usize)
            &&& v.items[i].gravity == 0
            &&& v.items[i].filters == held_filters(v.filter_out[collector as int])
            &&& v.items[i].damage == 0
        },
        ItemState::Thrown { .. } => {
            &&& v.items[i].gravity == FULL_GRAVITY
            &&& v.items[i].filters == LAYER_ALL
            &&& v.items[i].damage == THROW_DAMAGE
        },
    }
}

/// The per-collector part of the arena invariant: a live collector is
/// well formed, lists each item at most once, and every listed handle points
/// at an item held by exactly this collector.
pub open spec fn slot_ok(v: ArenaView, c: int) -> bool {
    v.alive[c] ==> {
        &&& collector_wf(v.collectors[c])
        &&& forall|k: int|
            0 <= k < v.collectors[c].collected.len() ==> (#[trigger] v.collectors[c].collected[k])
                < v.items.len() && v.items[v.collectors[c].collected[k] as int].state
                == (ItemState::Held { collector: c as usize })
        &&& forall|k1: int, k2: int|
            0 <= k1 < k2 < v.collectors[c].collected.len() ==> v.collectors[c].collected[k1]
                != v.collectors[c].collected[k2]
    }
}

/// The arena invariant.
pub open spec fn arena_wf(v: ArenaView) -> bool {
    &&& v.alive.len() == v.collectors.len()
    &&& v.filter_out.len() == v.collectors.len()
    &&& v.collectors.len() <= usize::MAX
    &&& v.items.len() <= usize::MAX
    &&& forall|c: int| 0 <= c < v.collectors.len() ==> #[trigger] slot_ok(v, c)
    &&& forall|i: int| 0 <= i < v.items.len() ==> #[trigger] item_state_ok(v, i)
    &&& forall|i: int| 0 <= i < v.items.len() ==> (#[trigger] v.items[i].mass) <= MAX_MASS
}

/// An item is held by at most one collector: two live collectors that both
/// list a handle are the same collector.
pub proof fn lemma_held_by_at_most_one(v: ArenaView, i: usize, c1: usize, c2: usize)
    requires
        arena_wf(v),
        0 <= c1 < v.collectors.len(),
        0 <= c2 < v.collectors.len(),
        v.alive[c1 as int],
        v.alive[c2 as int],
        v.collectors[c1 as int].collected.contains(i),
        v.collectors[c2 as int].collected.contains(i),
        i < v.items.len(),
    ensures
        c1 == c2,
{
    assert(slot_ok(v, c1 as int));
    assert(slot_ok(v, c2 as int));
    let k1 = choose|k: int|
        0 <= k < v.collectors[c1 as int].collected.len() && v.collectors[c1 as int].collected[k] == i;
    let k2 = choose|k: int|
        0 <= k < v.collectors[c2 as int].collected.len() && v.collectors[c2 as int].collected[k] == i;
    assert(v.items[i as int].state == (ItemState::Held { collector: c1 }));
    assert(v.items[i as int].state == (ItemState::Held { collector: c2 }));
}

/// The invariant of a collector teardown in progress: an item the collector
/// held at the start is either untouched and still listed, or already
/// restored to its free defaults; everything else is untouched.
spec fn despawn_item_ok(v: ArenaView, v0: ArenaView, c: usize, i: int) -> bool {
    if v0.items[i].state == (ItemState::Held { collector: c }) {
        (v.items[i] == v0.items[i] && v.collectors[c as int].collected.contains(i as usize))
            || v.items[i] == free_rec(v0.items[i].mass)
    } else {
        v.items[i] == v0.items[i]
    }
}

/// The result of an applied throw: the launched item and the impulse to
/// hand to the physics engine.
#[derive(Debug, Clone, Copy, PartialEq, Eq, Structural)]
pub struct ThrowOutcome {
    /// The item that left the formation.
    pub item: usize,
    /// The throw direction, in thousandths of a degree.
    pub direction: u32,
    /// The impulse magnitude: force times the item's mass, in thousandths.
    pub impulse: u64,
}

/// The single owner of all live collectors and items.
pub struct Arena {
    alive: Vec<bool>,
    collectors: Vec<Collector>,
    filter_out: Vec<ObjectLayer>,
    items: Vec<ItemRec>,
}

impl View for Arena {
    type V = ArenaView;

    closed spec fn view(&self) -> ArenaView {
        ArenaView {
            alive: self.alive@,
            collectors: self.collectors@.map_values(|c: Collector| c@),
            filter_out: self.filter_out@,
            items: self.items@,
        }
    }
}

impl Arena {
    pub open spec fn wf(&self) -> bool {
        arena_wf(self@)
    }

    /// An empty arena.
    pub fn new() -> (r: Self)
        ensures
            r.wf(),
            r@.collectors.len() == 0,
            r@.items.len() == 0,
    {
        let r = Arena {
            alive: Vec::new(),
            collectors: Vec::new(),
            filter_out: Vec::new(),
            items: Vec::new(),
        };
        proof {
            assert(r@.collectors =~= Seq::<CollectorView>::empty());
        }
        r
    }

    /// The number of collector slots, dead ones included.
    pub fn collectors_len(&self) -> (r: usize)
        ensures
            r == self@.collectors.len(),
    {
        self.collectors.len()
    }

    /// The number of items.
    pub fn items_len(&self) -> (r: usize)
        ensures
            r == self@.items.len(),
    {
        self.items.len()
    }

    /// Whether the collector slot is live.
    pub fn is_alive(&self, c: usize) -> (r: bool)
        requires
            c < self@.collectors.len(),
            self.wf(),
        ensures
            r == self@.alive[c as int],
    {
        self.alive[c]
    }

    /// Read access to a collector.
    pub fn collector(&self, c: usize) -> (r: &Collector)
        requires
            c < self@.collectors.len(),
        ensures
            r@ == self@.collectors[c as int],
    {
        &self.collectors[c]
    }

    /// The full record of an item.
    pub fn item(&self, i: usize) -> (r: ItemRec)
        requires
            i < self@.items.len(),
        ensures
            r == self@.items[i as int],
    {
        self.items[i]
    }

    /// Registers a freshly spawned collector and returns its handle.
    pub fn spawn_collector(&mut self, collector: Collector, filter_out: ObjectLayer) -> (c: usize)
        requires
            old(self).wf(),
            collector.wf(),
            collector@.collected.len() == 0,
        ensures
            final(self).wf(),
            c == old(self)@.collectors.len(),
            final(self)@.alive == old(self)@.alive.push(true),
            final(self)@.collectors == old(self)@.collectors.push(collector@),
            final(self)@.filter_out == old(self)@.filter_out.push(filter_out),
            final(self)@.items == old(self)@.items,
    {
        let ghost v0 = self@;
        let c = self.collectors.len();
        self.alive.push(true);
        self.collectors.push(collector);
        self.filter_out.push(filter_out);
        proof {
            assert(self.collectors.len() == self.collectors@.len());
            assert(self.items.len() == self.items@.len());
            assert(self@.collectors =~= v0.collectors.push(collector@));
            assert forall|c2: int| 0 <= c2 < self@.collectors.len() implies #[trigger] slot_ok(
                self@,
                c2,
            ) by {
                assert(slot_ok(v0, c2) || c2 == c);
            }
            assert forall|i: int| 0 <= i < self@.items.len() implies #[trigger] item_state_ok(
                self@,
                i,
            ) by {
                assert(item_state_ok(v0, i));
            }
        }
        c
    }

    /// Registers a freshly spawned free item of the given mass and returns
    /// its handle.
    pub fn spawn_item(&mut self, mass: u64) -> (i: usize)
        requires
            old(self).wf(),
            mass <= MAX_MASS,
        ensures
            final(self).wf(),
            i == old(self)@.items.len(),
            final(self)@.items == old(self)@.items.push(free_rec(mass)),
            final(self)@.alive == old(self)@.alive,
            final(self)@.collectors == old(self)@.collectors,
            final(self)@.filter_out == old(self)@.filter_out,
    {
        let ghost v0 = self@;
        let i = self.items.len();
        self.items.push(ItemRec {
            state: ItemState::Free,
            gravity: FULL_GRAVITY,
            filters: LAYER_ALL,
            mass,
            damage: 0,
        });
        proof {
            assert(self.collectors.len() == self.collectors@.len());
            assert(self.items.len() == self.items@.len());
            assert(self@.collectors =~= v0.collectors);
            assert forall|c2: int| 0 <= c2 < self@.collectors.len() implies #[trigger] slot_ok(
                self@,
                c2,
            ) by {
                assert(slot_ok(v0, c2));
            }
            assert forall|j: int| 0 <= j < self@.items.len() implies #[trigger] item_state_ok(
                self@,
                j,
            ) by {
                if j < v0.items.len() {
                    assert(item_state_ok(v0, j));
                }
            }
        }
        i
    }

    /// The entry funnel of the held state: registers a free item with a live
    /// collector, using `dir` as the alignment hint, and applies the entry
    /// side effects in the same mutation — the collision filter loses the
    /// collector layers and gravity drops to zero. A full collector rejects
    /// the item and nothing changes.
    pub fn collect(&mut self, c: usize, item: usize, dir: Option<u32>) -> (r: bool)
        requires
            old(self).wf(),
            c < old(self)@.collectors.len(),
            old(self)@.alive[c as int],
            item < old(self)@.items.len(),
            old(self)@.items[item as int].state is Free,
        ensures
            final(self).wf(),
            r <==> old(self)@.collectors[c as int].collected.len() < old(self)@.collectors[c as int].capacity,
            !r ==> final(self)@ == old(self)@,
            r ==> final(self)@.collectors == old(self)@.collectors.update(
                c as int,
                insert_model(old(self)@.collectors[c as int], item, dir),
            ),
            r ==> final(self)@.items == old(self)@.items.update(
                item as int,
                (ItemRec {
                    state: (ItemState::Held { collector: c }),
                    gravity: 0,
                    filters: held_filters(old(self)@.filter_out[c as int]),
                    mass: old(self)@.items[item as int].mass,
                    damage: 0,
                }),
            ),
            final(self)@.alive == old(self)@.alive,
            final(self)@.filter_out == old(self)@.filter_out,
    {
        let ghost v0 = self@;
        proof {
            assert(slot_ok(v0, c as int));
            assert(item_state_ok(v0, item as int));
        }
        let slot = &mut self.collectors[c];
        let ok = slot.insert(item, dir);
        if !ok {
            proof {
                assert(self@.collectors =~= v0.collectors);
                assert(self@ =~= v0);
            }
            return false;
        }
        let ghost cv0 = v0.collectors[c as int];
        let ghost cv1 = insert_model(cv0, item, dir);
        let ghost idx = crate::collector::insert_index(cv0, dir);
        proof {
            if cv0.growing && dir is Some && cv0.dist.points.len() > 0 {
                lemma_is_closest_exists(cv0.dist.points, norm_angle(dir->0 as int));
            }
            assert(0 <= idx <= cv0.collected.len());
            assert(self@.collectors =~= v0.collectors.update(c as int, cv1));
        }
        let extra = self.filter_out[c];
        let mass = self.items[item].mass;
        let filters = LAYER_ALL & !ObjectLayer::Collector.mask() & !extra.mask();
        self.items.set(
            item,
            ItemRec { state: ItemState::Held { collector: c }, gravity: 0, filters, mass, damage: 0 },
        );
        proof {
            let v1 = self@;
            // No collector listed the item while it was free.
            assert forall|c2: int, k: int|
                0 <= c2 < v0.collectors.len() && v0.alive[c2] && 0 <= k < v0.collectors[c2].collected.len() implies (#[trigger] v0.collectors[c2].collected[k]) != item by {
                assert(slot_ok(v0, c2));
                if v0.collectors[c2].collected[k] == item {
                    assert(v0.items[item as int].state == (ItemState::Held {
                        collector: c2 as usize,
                    }));
                }
            }
            assert forall|c2: int| 0 <= c2 < v1.collectors.len() implies #[trigger] slot_ok(
                v1,
                c2,
            ) by {
                assert(slot_ok(v0, c2));
                if v1.alive[c2] {
                    if c2 == c as int {
                        assert forall|k: int|
                            0 <= k < v1.collectors[c2].collected.len() implies (
                        #[trigger] v1.collectors[c2].collected[k]) < v1.items.len()
                            && v1.items[v1.collectors[c2].collected[k] as int].state
                            == (ItemState::Held { collector: c2 as usize }) by {
                            if k < idx {
                                assert(v1.collectors[c2].collected[k] == cv0.collected[k]);
                            } else if k == idx {
                                assert(v1.collectors[c2].collected[k] == item);
                            } else {
                                assert(v1.collectors[c2].collected[k] == cv0.collected[k - 1]);
                            }
                        }
                        assert forall|k1: int, k2: int|
                            0 <= k1 < k2 < v1.collectors[c2].collected.len() implies v1.collectors[c2].collected[k1] != v1.collectors[c2].collected[k2] by {
                            let s0 = cv0.collected;
                            let s1 = v1.collectors[c2].collected;
                            assert(s1 == s0.insert(idx, item));
                        }
                    } else {
                        assert(v1.collectors[c2] == v0.collectors[c2]);
                        assert forall|k: int|
                            0 <= k < v1.collectors[c2].collected.len() implies (
                        #[trigger] v1.collectors[c2].collected[k]) < v1.items.len()
                            && v1.items[v1.collectors[c2].collected[k] as int].state
                            == (ItemState::Held { collector: c2 as usize }) by {
                            assert(v0.collectors[c2].collected[k] != item);
                        }
                    }
                }
            }
            assert forall|i: int| 0 <= i < v1.items.len() implies #[trigger] item_state_ok(
                v1,
                i,
            ) by {
                assert(item_state_ok(v0, i));
                if i == item as int {
                    assert(v1.collectors[c as int].collected[idx] == item);
                    assert(v1.collectors[c as int].collected.contains(item));
                } else {
                    match v0.items[i].state {
                        ItemState::Held { collector } => {
                            if collector == c {
                                let k = choose|k: int|
                                    0 <= k < cv0.collected.len() && cv0.collected[k] == i as usize;
                                if k < idx {
                                    assert(v1.collectors[c as int].collected[k] == i as usize);
                                } else {
                                    assert(v1.collectors[c as int].collected[k + 1] == i as usize);
                                }
                                assert(v1.collectors[c as int].collected.contains(i as usize));
                            }
                        },
                        _ => {},
                    }
                }
            }
        }
        true
    }

    /// The exit funnel of the held state: unregisters the item from its
    /// owning collector and restores the default collision filter and full
    /// gravity in the same mutation. An item that is not held is a benign
    /// no-op.
    pub fn release(&mut self, item: usize) -> (r: bool)
        requires
            old(self).wf(),
            item < old(self)@.items.len(),
        ensures
            final(self).wf(),
            r <==> old(self)@.items[item as int].state is Held,
            !r ==> final(self)@ == old(self)@,
            old(self)@.items[item as int].state matches ItemState::Held { collector } ==> ({
                &&& final(self)@.collectors == old(self)@.collectors.update(
                    collector as int,
                    remove_model(old(self)@.collectors[collector as int], item),
                )
                &&& final(self)@.items == old(self)@.items.update(
                    item as int,
                    free_rec(old(self)@.items[item as int].mass),
                )
            }),
            final(self)@.alive == old(self)@.alive,
            final(self)@.filter_out == old(self)@.filter_out,
            final(self)@.items.len() == old(self)@.items.len(),
            final(self)@.collectors.len() == old(self)@.collectors.len(),
    {
        let ghost v0 = self@;
        let state = self.items[item].state;
        match state {
            ItemState::Held { collector } => {
                proof {
                    assert(item_state_ok(v0, item as int));
                    assert(slot_ok(v0, collector as int));
                }
                let ghost cv0 = v0.collectors[collector as int];
                let slot = &mut self.collectors[collector];
                let removed = slot.remove(item);
                let ghost cv1 = remove_model(cv0, item);
                let ghost idx = first_index_of(cv0.collected, item);
                let mass = self.items[item].mass;
                self.items.set(
                    item,
                    ItemRec {
                        state: ItemState::Free,
                        gravity: FULL_GRAVITY,
                        filters: LAYER_ALL,
                        mass,
                        damage: 0,
                    },
                );
                proof {
                    lemma_first_index_of(cv0.collected, item);
                    assert(0 <= idx < cv0.collected.len());
                    assert(cv1.collected == cv0.collected.remove(idx));
                    let v1 = self@;
                    assert(v1.collectors =~= v0.collectors.update(collector as int, cv1));
                    // Only this collector listed the item.
                    assert forall|c2: int, k: int|
                        0 <= c2 < v0.collectors.len() && v0.alive[c2] && 0 <= k < v0.collectors[c2].collected.len() && c2 != collector as int implies (
                    #[trigger] v0.collectors[c2].collected[k]) != item by {
                        assert(slot_ok(v0, c2));
                        if v0.collectors[c2].collected[k] == item {
                            assert(v0.items[item as int].state == (ItemState::Held {
                                collector: c2 as usize,
                            }));
                        }
                    }
                    // The item sat at exactly one position of its collector.
                    assert forall|k: int|
                        0 <= k < cv0.collected.len() && k != idx implies (#[trigger] cv0.collected[
                        k]) != item by {
                        assert(slot_ok(v0, collector as int));
                        if cv0.collected[k] == item {
                            if k < idx {
                                assert(cv0.collected[k] != cv0.collected[idx] || k == idx);
                            } else {
                                assert(cv0.collected[idx] != cv0.collected[k] || k == idx);
                            }
                        }
                    }
                    assert forall|c2: int| 0 <= c2 < v1.collectors.len() implies #[trigger] slot_ok(
                        v1,
                        c2,
                    ) by {
                        assert(slot_ok(v0, c2));
                        if v1.alive[c2] {
                            if c2 == collector as int {
                                assert forall|k: int|
                                    0 <= k < v1.collectors[c2].collected.len() implies (
                                #[trigger] v1.collectors[c2].collected[k]) < v1.items.len()
                                    && v1.items[v1.collectors[c2].collected[k] as int].state
                                    == (ItemState::Held { collector: c2 as usize }) by {
                                    if k < idx {
                                        assert(v1.collectors[c2].collected[k] == cv0.collected[k]);
                                    } else {
                                        assert(v1.collectors[c2].collected[k] == cv0.collected[k
                                            + 1]);
                                    }
                                }
                                assert forall|k1: int, k2: int|
                                    0 <= k1 < k2 < v1.collectors[c2].collected.len() implies
                                    v1.collectors[c2].collected[k1] != v1.collectors[c2].collected[k2] by {
                                    let s1 = v1.collectors[c2].collected;
                                    if k1 < idx {
                                        assert(s1[k1] == cv0.collected[k1]);
                                    } else {
                                        assert(s1[k1] == cv0.collected[k1 + 1]);
                                    }
                                    if k2 < idx {
                                        assert(s1[k2] == cv0.collected[k2]);
                                    } else {
                                        assert(s1[k2] == cv0.collected[k2 + 1]);
                                    }
                                }
                            } else {
                                assert(v1.collectors[c2] == v0.collectors[c2]);
                                assert forall|k: int|
                                    0 <= k < v1.collectors[c2].collected.len() implies (
                                #[trigger] v1.collectors[c2].collected[k]) < v1.items.len()
                                    && v1.items[v1.collectors[c2].collected[k] as int].state
                                    == (ItemState::Held { collector: c2 as usize }) by {
                                    assert(v0.collectors[c2].collected[k] != item);
                                }
                            }
                        }
                    }
                    assert forall|i: int| 0 <= i < v1.items.len() implies #[trigger] item_state_ok(
                        v1,
                        i,
                    ) by {
                        assert(item_state_ok(v0, i));
                        if i != item as int {
                            match v0.items[i].state {
                                ItemState::Held { collector: cc } => {
                                    if cc == collector {
                                        let k = choose|k: int|
                                            0 <= k < cv0.collected.len() && cv0.collected[k]
                                                == i as usize;
                                        assert(cv0.collected[idx] == item);
                                        assert(k != idx);
                                        if k < idx {
                                            assert(v1.collectors[cc as int].collected[k]
                                                == i as usize);
                                        } else {
                                            assert(v1.collectors[cc as int].collected[k - 1]
                                                == i as usize);
                                        }
                                        assert(v1.collectors[cc as int].collected.contains(
                                            i as usize,
                                        ));
                                    }
                                },
                                _ => {},
                            }
                        }
                    }
                }
                true
            },
            _ => {
                false
            },
        }
    }

    /// The idle reorientation of one physics step for a live collector: a
    /// circular formation spins at a constant tangential speed, an arc
    /// formation snaps to the owner's forward angle. The held list and every
    /// item are untouched.
    pub fn auto_rotate(&mut self, c: usize, dt_ms: u64, forward: u32)
        requires
            old(self).wf(),
            c < old(self)@.collectors.len(),
            old(self)@.alive[c as int],
            dt_ms <= crate::collector::MAX_TICK_MS,
        ensures
            final(self).wf(),
            final(self)@.items == old(self)@.items,
            final(self)@.alive == old(self)@.alive,
            final(self)@.filter_out == old(self)@.filter_out,
            final(self)@.collectors.len() == old(self)@.collectors.len(),
            forall|c2: int|
                0 <= c2 < old(self)@.collectors.len() && c2 != c ==> final(self)@.collectors[c2]
                    == old(self)@.collectors[c2],
            final(self)@.collectors[c as int].collected == old(self)@.collectors[c as int].collected,
            final(self)@.collectors[c as int].shape == old(self)@.collectors[c as int].shape,
            final(self)@.collectors[c as int].dist.points.len() == old(self)@.collectors[c as int].dist.points.len(),
            old(self)@.collectors[c as int].shape is Circle && collector_radius_spec(
                old(self)@.collectors[c as int],
            ) == 0 ==> final(self)@.collectors[c as int] == old(self)@.collectors[c as int],
            old(self)@.collectors[c as int].shape is Circle && collector_radius_spec(
                old(self)@.collectors[c as int],
            ) > 0 ==> ({
                let cv = old(self)@.collectors[c as int];
                let delta = spin_delta(collector_radius_spec(cv), dt_ms as int);
                &&& final(self)@.collectors[c as int].dist.current_angle == norm_angle(
                    cv.dist.current_angle + delta,
                )
                &&& forall|i: int|
                    0 <= i < cv.dist.points.len() ==> #[trigger] final(self)@.collectors[c as int].dist.points[i] == (PolarPoint {
                        angle: norm_angle(cv.dist.points[i].angle + delta) as u32,
                        radius: cv.dist.points[i].radius,
                    })
            }),
            old(self)@.collectors[c as int].shape is Arc ==> ({
                let cv = old(self)@.collectors[c as int];
                &&& final(self)@.collectors[c as int].dist.current_angle == norm_angle(
                    forward as int,
                )
                &&& forall|i: int|
                    0 <= i < cv.dist.points.len() ==> #[trigger] final(self)@.collectors[c as int].dist.points[i] == (PolarPoint {
                        angle: norm_angle(cv.dist.points[i].angle + forward
                            - cv.dist.current_angle) as u32,
                        radius: cv.dist.points[i].radius,
                    })
            }),
    {
        let ghost v0 = self@;
        proof {
            assert(slot_ok(v0, c as int));
        }
        let slot = &mut self.collectors[c];
        slot.auto_rotate(dt_ms, forward);
        proof {
            let v1 = self@;
            assert(v1.collectors =~= v0.collectors.update(c as int, v1.collectors[c as int]));
            assert forall|c2: int| 0 <= c2 < v1.collectors.len() implies #[trigger] slot_ok(
                v1,
                c2,
            ) by {
                assert(slot_ok(v0, c2));
            }
            assert forall|i: int| 0 <= i < v1.items.len() implies #[trigger] item_state_ok(
                v1,
                i,
            ) by {
                assert(item_state_ok(v0, i));
            }
        }
    }

    /// Resolves a throw request against a live collector: picks the held
    /// item aligned with `direction`, removes its held state (side effects
    /// included), marks it in flight from this collector with a fresh timer
    /// and the flight damage, and returns the impulse for the physics
    /// engine: the throw force times the item's mass. Returns `None`, with
    /// nothing mutated, when no aligned held item exists.
    pub fn throw(&mut self, c: usize, direction: u32, force: u64) -> (r: Option<ThrowOutcome>)
        requires
            old(self).wf(),
            c < old(self)@.collectors.len(),
            old(self)@.alive[c as int],
            force <= MAX_FORCE,
        ensures
            final(self).wf(),
            r is None ==> final(self)@ == old(self)@,
            r is None <==> (old(self)@.collectors[c as int].dist.points.len() == 0 || closest_index(
                old(self)@.collectors[c as int].dist.points,
                norm_angle(direction as int),
            ) >= old(self)@.collectors[c as int].collected.len()),
            r matches Some(out) ==> ({
                let cv = old(self)@.collectors[c as int];
                let idx = closest_index(cv.dist.points, norm_angle(direction as int));
                &&& 0 <= idx < cv.collected.len()
                &&& out.item == cv.collected[idx]
                &&& out.direction == direction
                &&& out.impulse == force * old(self)@.items[out.item as int].mass / 1000
                &&& final(self)@.collectors == old(self)@.collectors.update(
                    c as int,
                    remove_model(cv, out.item),
                )
                &&& final(self)@.collectors[c as int].collected.len() == cv.collected.len() - 1
                &&& final(self)@.items == old(self)@.items.update(
                    out.item as int,
                    (ItemRec {
                        state: (ItemState::Thrown { collector: c, flight_ms: 0 }),
                        gravity: FULL_GRAVITY,
                        filters: LAYER_ALL,
                        mass: old(self)@.items[out.item as int].mass,
                        damage: THROW_DAMAGE,
                    }),
                )
            }),
            final(self)@.alive == old(self)@.alive,
            final(self)@.filter_out == old(self)@.filter_out,
    {
        let ghost v0 = self@;
        proof {
            assert(slot_ok(v0, c as int));
        }
        let cmd = self.collectors[c].throw_collected(direction, force);
        match cmd {
            None => None,
            Some(tc) => {
                let ghost cv0 = v0.collectors[c as int];
                let ghost idx = closest_index(cv0.dist.points, norm_angle(direction as int));
                proof {
                    assert(cv0.dist.points.len() > 0);
                    lemma_is_closest_exists(cv0.dist.points, norm_angle(direction as int));
                    assert(0 <= idx < cv0.collected.len());
                    assert(slot_ok(v0, c as int));
                    assert(cv0.collected[idx] == tc.item);
                    assert(v0.items[tc.item as int].state == (ItemState::Held { collector: c }));
                    assert(item_state_ok(v0, tc.item as int));
                }
                let mass = self.items[tc.item].mass;
                proof {
                    assert(v0.items[tc.item as int].mass <= MAX_MASS);
                    vstd::arithmetic::mul::lemma_mul_upper_bound(
                        force as int,
                        MAX_FORCE as int,
                        mass as int,
                        MAX_MASS as int,
                    );
                }
                self.release(tc.item);
                let ghost v1 = self@;
                self.items.set(
                    tc.item,
                    ItemRec {
                        state: ItemState::Thrown { collector: c, flight_ms: 0 },
                        gravity: FULL_GRAVITY,
                        filters: LAYER_ALL,
                        mass,
                        damage: THROW_DAMAGE,
                    },
                );
                proof {
                    let v2 = self@;
                    assert forall|c2: int| 0 <= c2 < v2.collectors.len() implies #[trigger] slot_ok(
                        v2,
                        c2,
                    ) by {
                        assert(slot_ok(v1, c2));
                        if v2.alive[c2] {
                            assert forall|k: int|
                                0 <= k < v2.collectors[c2].collected.len() implies (
                            #[trigger] v2.collectors[c2].collected[k]) < v2.items.len()
                                && v2.items[v2.collectors[c2].collected[k] as int].state
                                == (ItemState::Held { collector: c2 as usize }) by {
                                assert(item_state_ok(v1, v1.collectors[c2].collected[k] as int));
                                assert(v1.items[v1.collectors[c2].collected[k] as int].state
                                    == (ItemState::Held { collector: c2 as usize }));
                                assert(v1.collectors[c2].collected[k] != tc.item);
                            }
                        }
                    }
                    assert forall|i: int| 0 <= i < v2.items.len() implies #[trigger] item_state_ok(
                        v2,
                        i,
                    ) by {
                        assert(item_state_ok(v1, i));
                    }
                    assert(cv0.collected.contains(tc.item));
                    lemma_first_index_of(cv0.collected, tc.item);
                }
                Some(ThrowOutcome { item: tc.item, direction, impulse: force * mass / 1000 })
            },
        }
    }

    /// One flight tick of a thrown item: the flight timer advances by
    /// `dt_ms` (capped at the largest representable time) and the flight
    /// ends — the thrown state and its damage drop away — exactly when the
    /// minimum flight time has passed and the squared speed handed in by the
    /// physics engine is at or below the stop threshold. Items not in flight
    /// are left untouched.
    pub fn step_thrown(&mut self, item: usize, dt_ms: u64, speed_sq: u64) -> (r: bool)
        requires
            old(self).wf(),
            item < old(self)@.items.len(),
        ensures
            final(self).wf(),
            !(old(self)@.items[item as int].state is Thrown) ==> !r && final(self)@ == old(self)@,
            old(self)@.items[item as int].state matches ItemState::Thrown { collector, flight_ms }
                ==> ({
                let t2: int = if flight_ms + dt_ms <= u64::MAX {
                    flight_ms + dt_ms
                } else {
                    u64::MAX as int
                };
                &&& r == flight_over(t2, speed_sq as int)
                &&& r ==> final(self)@.items == old(self)@.items.update(
                    item as int,
                    free_rec(old(self)@.items[item as int].mass),
                )
                &&& !r ==> final(self)@.items == old(self)@.items.update(
                    item as int,
                    (ItemRec {
                        state: (ItemState::Thrown { collector, flight_ms: t2 as u64 }),
                        gravity: FULL_GRAVITY,
                        filters: LAYER_ALL,
                        mass: old(self)@.items[item as int].mass,
                        damage: THROW_DAMAGE,
                    }),
                )
            }),
            final(self)@.collectors == old(self)@.collectors,
            final(self)@.alive == old(self)@.alive,
            final(self)@.filter_out == old(self)@.filter_out,
    {
        let ghost v0 = self@;
        let rec = self.items[item];
        match rec.state {
            ItemState::Thrown { collector, flight_ms } => {
                proof {
                    assert(item_state_ok(v0, item as int));
                }
                let t2 = if dt_ms > u64::MAX - flight_ms {
                    u64::MAX
                } else {
                    flight_ms + dt_ms
                };
                let ended = t2 >= THROW_MIN_MS && speed_sq <= STOP_SPEED_SQ;
                if ended {
                    self.items.set(
                        item,
                        ItemRec {
                            state: ItemState::Free,
                            gravity: FULL_GRAVITY,
                            filters: LAYER_ALL,
                            mass: rec.mass,
                            damage: 0,
                        },
                    );
                } else {
                    self.items.set(
                        item,
                        ItemRec {
                            state: ItemState::Thrown { collector, flight_ms: t2 },
                            gravity: FULL_GRAVITY,
                            filters: LAYER_ALL,
                            mass: rec.mass,
                            damage: THROW_DAMAGE,
                        },
                    );
                }
                proof {
                    let v1 = self@;
                    assert forall|c2: int| 0 <= c2 < v1.collectors.len() implies #[trigger] slot_ok(
                        v1,
                        c2,
                    ) by {
                        assert(slot_ok(v0, c2));
                        if v1.alive[c2] {
                            assert forall|k: int|
                                0 <= k < v1.collectors[c2].collected.len() implies (
                            #[trigger] v1.collectors[c2].collected[k]) < v1.items.len()
                                && v1.items[v1.collectors[c2].collected[k] as int].state
                                == (ItemState::Held { collector: c2 as usize }) by {
                                assert(v0.collectors[c2].collected[k] != item);
                            }
                        }
                    }
                    assert forall|i: int| 0 <= i < v1.items.len() implies #[trigger] item_state_ok(
                        v1,
                        i,
                    ) by {
                        assert(item_state_ok(v0, i));
                    }
                }
                ended
            },
            _ => {
                false
            },
        }
    }

    /// Destroys a collector: every item it still holds has its held state
    /// forcibly cleared — physics defaults restored — before the slot goes
    /// dead, so no held item is left with a dangling back-reference.
    /// Despawning a dead slot is a no-op.
    pub fn despawn_collector(&mut self, c: usize)
        requires
            old(self).wf(),
            c < old(self)@.collectors.len(),
        ensures
            final(self).wf(),
            final(self)@.alive == old(self)@.alive.update(c as int, false),
            final(self)@.filter_out == old(self)@.filter_out,
            final(self)@.collectors.len() == old(self)@.collectors.len(),
            forall|c2: int|
                0 <= c2 < old(self)@.collectors.len() && c2 != c ==> final(self)@.collectors[c2]
                    == old(self)@.collectors[c2],
            final(self)@.items.len() == old(self)@.items.len(),
            forall|i: int|
                0 <= i < old(self)@.items.len() && old(self)@.items[i].state == (ItemState::Held {
                    collector: c,
                }) ==> final(self)@.items[i] == free_rec(old(self)@.items[i].mass),
            forall|i: int|
                0 <= i < old(self)@.items.len() && old(self)@.items[i].state != (ItemState::Held {
                    collector: c,
                }) ==> final(self)@.items[i] == old(self)@.items[i],
    {
        let ghost v0 = self@;
        if !self.alive[c] {
            self.alive.set(c, false);
            proof {
                assert forall|i: int|
                    0 <= i < v0.items.len() implies v0.items[i].state != (ItemState::Held {
                    collector: c,
                }) by {
                    assert(item_state_ok(v0, i));
                }
                assert forall|c2: int| 0 <= c2 < self@.collectors.len() implies #[trigger] slot_ok(
                    self@,
                    c2,
                ) by {
                    assert(slot_ok(v0, c2));
                }
                assert forall|i: int| 0 <= i < self@.items.len() implies #[trigger] item_state_ok(
                    self@,
                    i,
                ) by {
                    assert(item_state_ok(v0, i));
                }
            }
            return ;
        }
        proof {
            assert forall|i: int| 0 <= i < v0.items.len() implies #[trigger] despawn_item_ok(
                v0,
                v0,
                c,
                i,
            ) by {
                assert(item_state_ok(v0, i));
            }
        }
        while self.collectors[c].len() > 0
            invariant
                arena_wf(self@),
                c < self@.collectors.len(),
                v0 == old(self)@,
                arena_wf(v0),
                self@.alive == v0.alive,
                self@.alive[c as int],
                self@.filter_out == v0.filter_out,
                self@.collectors.len() == v0.collectors.len(),
                self@.items.len() == v0.items.len(),
                forall|c2: int|
                    0 <= c2 < v0.collectors.len() && c2 != c ==> self@.collectors[c2]
                        == v0.collectors[c2],
                forall|i: int| 0 <= i < v0.items.len() ==> #[trigger] despawn_item_ok(
                    self@,
                    v0,
                    c,
                    i,
                ),
            decreases self@.collectors[c as int].collected.len(),
        {
            let ghost vh = self@;
            let it = self.collectors[c].collected_at(0);
            proof {
                assert(slot_ok(vh, c as int));
                assert(vh.collectors[c as int].collected[0] == it);
                assert(vh.items[it as int].state == (ItemState::Held { collector: c }));
                assert(item_state_ok(vh, it as int));
                lemma_first_index_char(vh.collectors[c as int].collected, it, 0);
            }
            self.release(it);
            proof {
                assert(despawn_item_ok(vh, v0, c, it as int));
                assert(vh.items[it as int] == v0.items[it as int]);
                assert(self@.items[it as int] == free_rec(v0.items[it as int].mass));
                let s0 = vh.collectors[c as int].collected;
                let s1 = self@.collectors[c as int].collected;
                assert(s1 == s0.remove(0));
                assert forall|i: int| 0 <= i < v0.items.len() implies #[trigger] despawn_item_ok(
                    self@,
                    v0,
                    c,
                    i,
                ) by {
                    assert(despawn_item_ok(vh, v0, c, i));
                    if i != it as int && v0.items[i].state == (ItemState::Held { collector: c })
                        && vh.items[i] == v0.items[i] {
                        let k = choose|k: int| 0 <= k < s0.len() && s0[k] == i as usize;
                        assert(slot_ok(vh, c as int));
                        assert(s0[0] == it);
                        assert(k != 0);
                        assert(s1[k - 1] == i as usize);
                        assert(s1.contains(i as usize));
                    }
                }
            }
        }
        let ghost v1 = self@;
        self.alive.set(c, false);
        proof {
            let v2 = self@;
            assert forall|i: int|
                0 <= i < v1.items.len() implies v1.items[i].state != (ItemState::Held {
                collector: c,
            }) by {
                assert(item_state_ok(v1, i));
                if v1.items[i].state == (ItemState::Held { collector: c }) {
                    assert(v1.collectors[c as int].collected.contains(i as usize));
                }
            }
            assert forall|c2: int| 0 <= c2 < v2.collectors.len() implies #[trigger] slot_ok(
                v2,
                c2,
            ) by {
                assert(slot_ok(v1, c2));
                if c2 != c as int && v2.alive[c2] {
                    assert forall|k: int|
                        0 <= k < v2.collectors[c2].collected.len() implies (
                    #[trigger] v2.collectors[c2].collected[k]) < v2.items.len()
                        && v2.items[v2.collectors[c2].collected[k] as int].state
                        == (ItemState::Held { collector: c2 as usize }) by {
                        assert(v1.collectors[c2].collected[k] < v1.items.len());
                    }
                }
            }
            assert forall|i: int| 0 <= i < v2.items.len() implies #[trigger] item_state_ok(
                v2,
                i,
            ) by {
                assert(item_state_ok(v1, i));
                assert(v1.items[i].state != (ItemState::Held { collector: c }));
            }
            assert forall|i: int|
                0 <= i < v0.items.len() && v0.items[i].state == (ItemState::Held {
                    collector: c,
                }) implies v2.items[i] == free_rec(v0.items[i].mass) by {
                assert(despawn_item_ok(v1, v0, c, i));
                if v1.items[i] == v0.items[i] && v1.collectors[c as int].collected.contains(
                    i as usize,
                ) {
                    assert(v1.collectors[c as int].collected.len() == 0);
                }
            }
            assert forall|i: int|
                0 <= i < v0.items.len() && v0.items[i].state != (ItemState::Held {
                    collector: c,
                }) implies v2.items[i] == v0.items[i] by {
                assert(despawn_item_ok(v1, v0, c, i));
            }
        }
    }

    /// One filtering decision of the contact pass: whether the candidate
    /// contact between two items survives.
    pub fn retain_contact(&self, a: usize, b: usize) -> (r: bool)
        requires
            a < self@.items.len(),
            b < self@.items.len(),
        ensures
            r == retain_spec(self@.items[a as int].state, self@.items[b as int].state),
    {
        let mut thrown_from: Option<usize> = None;
        let mut held_by: Option<usize> = None;
        match self.items[a].state {
            ItemState::Thrown { collector, .. } => {
                thrown_from = Some(collector);
            },
            ItemState::Held { collector } => {
                held_by = Some(collector);
            },
            ItemState::Free => {},
        }
        match self.items[b].state {
            ItemState::Thrown { collector, .. } => {
                thrown_from = Some(collector);
            },
            ItemState::Held { collector } => {
                held_by = Some(collector);
            },
            ItemState::Free => {},
        }
        match (thrown_from, held_by) {
            (Some(t), Some(h)) => t != h,
            _ => true,
        }
    }
}

} // verus!
