//! The collector: the entity that owns a bounded, ordered list of held items
//! and keeps one point distribution sized to match.
//!
//! A growing collector re-sizes its formation after every insert or remove,
//! so its held-item list and its slot cache always have the same length. A
//! fixed collector generates its slot ring once and its radius never moves.
//! Items are referred to by stable handles; the collector never dereferences
//! them.

use vstd::prelude::*;
use vstd::arithmetic::div_mod::lemma_div_is_ordered;
use vstd::arithmetic::mul::{lemma_mul_inequality, lemma_mul_upper_bound};
use crate::angle::{
    FULL_TURN, angle_ok, norm_angle, circ_dist, reduce_angle, lemma_norm_angle_ok,
    lemma_norm_small, lemma_norm_add,
};
use crate::distribution::{
    PolarPoint, DistributionShape, DistView, PointDistribution, dist_wf, points_spec, radius_spec,
    is_closest, circle_points, MAX_COUNT, MAX_SPACING, MAX_BASE_RADIUS, MDEG_PER_RAD,
    lemma_points_spec_rotated, lemma_points_spec_len,
};

verus! {

/// Tangential speed target for the idle spin, in thousandths of a unit per
/// second: larger formations spin proportionally slower.
pub const SPIN_SPEED: u64 = 10_000;

/// The largest time step accepted by the idle spin, in milliseconds.
pub const MAX_TICK_MS: u64 = 1_000_000;

/// The mathematical content of a collector.
#[verifier::ext_equal]
pub ghost struct CollectorView {
    pub min_radius: int,
    pub growing: bool,
    pub shape: DistributionShape,
    pub capacity: int,
    pub collected: Seq<usize>,
    pub dist: DistView,
}

/// The slot count a collector keeps its distribution at: the held count for
/// a growing collector, the fixed slot count otherwise.
pub open spec fn slot_count(v: CollectorView) -> int {
    if v.growing {
        v.collected.len() as int
    } else {
        v.dist.points.len() as int
    }
}

/// The collector invariant: bounds hold, a growing collector has exactly one
/// slot per held item, and the slot cache is exactly the layout that its
/// parameters, its facing angle and its slot count dictate.
pub open spec fn collector_wf(v: CollectorView) -> bool {
    &&& 0 <= v.min_radius <= MAX_BASE_RADIUS
    &&& dist_wf(v.dist)
    &&& 0 <= v.capacity <= MAX_COUNT
    &&& v.collected.len() <= v.capacity
    &&& v.growing ==> v.dist.min_radius == v.min_radius
    &&& v.growing ==> v.collected.len() == v.dist.points.len()
    &&& v.shape is Arc ==> v.growing && v.min_radius >= 1
    &&& v.dist.points == points_spec(
        v.dist.min_radius,
        v.dist.max_distance,
        v.dist.current_angle,
        v.dist.points.len() as nat,
        v.shape,
    )
}

/// The collector's formation radius: scales with the held count when
/// growing, else the fixed radius.
pub open spec fn collector_radius_spec(v: CollectorView) -> int {
    if v.growing {
        radius_spec(v.dist.min_radius, v.dist.max_distance, v.collected.len() as int)
    } else {
        v.min_radius
    }
}

/// The first index of `item` in `s`, or `-1` when absent.
pub open spec fn first_index_of(s: Seq<usize>, item: usize) -> int
    decreases s.len(),
{
    if s.len() == 0 {
        -1
    } else if s[0] == item {
        0
    } else {
        let tail = first_index_of(s.drop_first(), item);
        if tail < 0 {
            -1
        } else {
            tail + 1
        }
    }
}

pub proof fn lemma_first_index_of(s: Seq<usize>, item: usize)
    ensures
        !s.contains(item) ==> first_index_of(s, item) == -1,
        s.contains(item) ==> 0 <= first_index_of(s, item) < s.len(),
        s.contains(item) ==> s[first_index_of(s, item)] == item,
        forall|j: int| 0 <= j < first_index_of(s, item) ==> s[j] != item,
    decreases s.len(),
{
    if s.len() > 0 && s[0] != item {
        lemma_first_index_of(s.drop_first(), item);
        let tail = first_index_of(s.drop_first(), item);
        assert(forall|j: int| 0 <= j < s.drop_first().len() ==> s.drop_first()[j] == s[j + 1]);
        if s.contains(item) {
            let w = choose|w: int| 0 <= w < s.len() && s[w] == item;
            assert(s.drop_first()[w - 1] == item);
            assert(s.drop_first().contains(item));
        }
        if s.drop_first().contains(item) {
            let w = choose|w: int| 0 <= w < s.drop_first().len() && s.drop_first()[w] == item;
            assert(s[w + 1] == item);
            assert(s.contains(item));
        }
        if tail >= 0 {
            assert(s.drop_first().contains(item));
            assert forall|j: int| 0 <= j < first_index_of(s, item) implies s[j] != item by {
                if j > 0 {
                    assert(s.drop_first()[j - 1] == s[j]);
                }
            }
        }
    }
}

/// A position with the stated property is the first index.
pub proof fn lemma_first_index_char(s: Seq<usize>, item: usize, i: int)
    requires
        0 <= i < s.len(),
        s[i] == item,
        forall|j: int| 0 <= j < i ==> s[j] != item,
    ensures
        first_index_of(s, item) == i,
    decreases s.len(),
{
    if i > 0 {
        assert(forall|j: int| 0 <= j < s.drop_first().len() ==> s.drop_first()[j] == s[j + 1]);
        lemma_first_index_char(s.drop_first(), item, i - 1);
    }
}

/// Some slot is always closest-aligned when any slots exist.
pub proof fn lemma_is_closest_exists(pts: Seq<PolarPoint>, target: int)
    requires
        pts.len() > 0,
    ensures
        exists|i: int| is_closest(pts, target, i),
    decreases pts.len(),
{
    if pts.len() == 1 {
        assert(is_closest(pts, target, 0));
    } else {
        let head = pts.drop_last();
        lemma_is_closest_exists(head, target);
        let i = choose|i: int| is_closest(head, target, i);
        let last = pts.len() - 1;
        if circ_dist(target, pts[last].angle as int) < circ_dist(target, pts[i].angle as int) {
            assert(forall|j: int| 0 <= j < last ==> head[j] == pts[j]);
            assert(is_closest(pts, target, last));
        } else {
            assert(forall|j: int| 0 <= j < last ==> head[j] == pts[j]);
            assert(is_closest(pts, target, i));
        }
    }
}

/// At most one slot is closest-aligned.
pub proof fn lemma_is_closest_unique(pts: Seq<PolarPoint>, target: int, i: int, j: int)
    requires
        is_closest(pts, target, i),
        is_closest(pts, target, j),
    ensures
        i == j,
{
    assert(circ_dist(target, pts[i].angle as int) >= circ_dist(target, pts[j].angle as int));
    assert(circ_dist(target, pts[j].angle as int) >= circ_dist(target, pts[i].angle as int));
    if i < j {
        assert(circ_dist(target, pts[i].angle as int) > circ_dist(target, pts[j].angle as int));
    }
    if j < i {
        assert(circ_dist(target, pts[j].angle as int) > circ_dist(target, pts[i].angle as int));
    }
}

/// The closest-aligned slot index, where one exists.
pub open spec fn closest_index(pts: Seq<PolarPoint>, target: int) -> int {
    choose|i: int| is_closest(pts, target, i)
}

/// Where a new item lands in the held list: at the slot aligned with the
/// entry direction for a growing collector given a hint, else at the end.
pub open spec fn insert_index(v: CollectorView, dir: Option<u32>) -> int {
    if v.growing && dir is Some && v.dist.points.len() > 0 {
        closest_index(v.dist.points, norm_angle(dir->0 as int))
    } else {
        v.collected.len() as int
    }
}

/// The collector after a successful insert: the item lands at its index and
/// a growing collector re-sizes its slot cache to the new held count.
pub open spec fn insert_model(v: CollectorView, item: usize, dir: Option<u32>) -> CollectorView {
    let idx = insert_index(v, dir);
    let collected = v.collected.insert(idx, item);
    CollectorView {
        collected,
        dist: DistView {
            points: if v.growing {
                points_spec(
                    v.dist.min_radius,
                    v.dist.max_distance,
                    v.dist.current_angle,
                    collected.len(),
                    v.shape,
                )
            } else {
                v.dist.points
            },
            ..v.dist
        },
        ..v
    }
}

/// The collector after removing `item`: the first occurrence leaves the held
/// list and a growing collector re-sizes its slot cache; absent items leave
/// the collector untouched.
pub open spec fn remove_model(v: CollectorView, item: usize) -> CollectorView {
    if !v.collected.contains(item) {
        v
    } else {
        let collected = v.collected.remove(first_index_of(v.collected, item));
        CollectorView {
            collected,
            dist: DistView {
                points: if v.growing {
                    points_spec(
                        v.dist.min_radius,
                        v.dist.max_distance,
                        v.dist.current_angle,
                        collected.len(),
                        v.shape,
                    )
                } else {
                    v.dist.points
                },
                ..v.dist
            },
            ..v
        }
    }
}

/// A deferred throw: the chosen item, the throw direction and the force to
/// apply at the single synchronization point of the tick.
#[derive(Debug, Clone, Copy, PartialEq, Eq, Structural)]
pub struct ThrowCommand {
    /// The handle of the item to launch.
    pub item: usize,
    /// The throw direction, in thousandths of a degree.
    pub direction: u32,
    /// The throw force, in thousandths of a unit of impulse per unit mass.
    pub force: u64,
}

/// The entity that holds items in formation around itself.
pub struct Collector {
    min_radius: u64,
    growing: bool,
    distribution: PointDistribution,
    shape: DistributionShape,
    collected: Vec<usize>,
    capacity: usize,
}

impl View for Collector {
    type V = CollectorView;

    closed spec fn view(&self) -> CollectorView {
        CollectorView {
            min_radius: self.min_radius as int,
            growing: self.growing,
            shape: self.shape,
            capacity: self.capacity as int,
            collected: self.collected@,
            dist: self.distribution@,
        }
    }
}

impl Collector {
    pub open spec fn wf(&self) -> bool {
        collector_wf(self@)
    }

    /// A fixed collector: constant radius, a ring of `max_points` slots laid
    /// out once, room for `max_items` held items.
    pub fn fixed(
        collection_radius: u64,
        max_distance: u64,
        max_items: usize,
        max_points: usize,
    ) -> (r: Self)
        requires
            collection_radius <= MAX_BASE_RADIUS,
            max_distance <= MAX_SPACING,
            max_items <= MAX_COUNT,
            max_points <= MAX_COUNT,
        ensures
            r.wf(),
            r@.min_radius == collection_radius,
            !r@.growing,
            r@.shape is Circle,
            r@.capacity == max_items,
            r@.collected.len() == 0,
            r@.dist.min_radius == 0,
            r@.dist.max_distance == max_distance,
            r@.dist.current_angle == 0,
            r@.dist.points == circle_points(0, max_distance as int, 0, max_points as nat),
            r@.dist.points.len() == max_points,
    {
        let mut distribution = PointDistribution::new(0, max_distance);
        distribution.update(max_points, DistributionShape::Circle);
        Collector {
            min_radius: collection_radius,
            growing: false,
            distribution,
            shape: DistributionShape::Circle,
            collected: Vec::new(),
            capacity: max_items,
        }
    }

    /// A growing collector: the radius scales with the held count and the
    /// slot cache always matches it.
    pub fn growing(min_radius: u64, max_distance: u64, max_items: usize) -> (r: Self)
        requires
            min_radius <= MAX_BASE_RADIUS,
            max_distance <= MAX_SPACING,
            max_items <= MAX_COUNT,
        ensures
            r.wf(),
            r@.min_radius == min_radius,
            r@.growing,
            r@.shape is Circle,
            r@.capacity == max_items,
            r@.collected.len() == 0,
            r@.dist.min_radius == min_radius,
            r@.dist.max_distance == max_distance,
            r@.dist.current_angle == 0,
            r@.dist.points.len() == 0,
    {
        let r = Collector {
            min_radius,
            growing: true,
            distribution: PointDistribution::new(min_radius, max_distance),
            shape: DistributionShape::Circle,
            collected: Vec::new(),
            capacity: max_items,
        };
        proof {
            assert(r@.dist.points =~= circle_points(min_radius as int, max_distance as int, 0, 0));
        }
        r
    }

    /// The current formation radius.
    pub fn radius(&self) -> (r: u64)
        requires
            self.wf(),
        ensures
            r == collector_radius_spec(self@),
    {
        if self.growing {
            self.distribution.radius(self.collected.len())
        } else {
            self.min_radius
        }
    }

    /// The number of held items.
    pub fn len(&self) -> (r: usize)
        ensures
            r == self@.collected.len(),
    {
        self.collected.len()
    }

    /// The number of cached formation slots.
    pub fn points_len(&self) -> (r: usize)
        ensures
            r == self@.dist.points.len(),
    {
        self.distribution.len()
    }

    /// Whether no item is held.
    pub fn is_empty(&self) -> (r: bool)
        ensures
            r <==> self@.collected.len() == 0,
    {
        self.collected.len() == 0
    }

    /// The current layout shape.
    pub fn shape(&self) -> (r: DistributionShape)
        ensures
            r == self@.shape,
    {
        self.shape
    }

    /// The held item at position `k` of the formation order.
    pub fn collected_at(&self, k: usize) -> (r: usize)
        requires
            k < self@.collected.len(),
        ensures
            r == self@.collected[k as int],
    {
        self.collected[k]
    }

    /// Read access to the point distribution.
    pub fn distribution(&self) -> (r: &PointDistribution)
        ensures
            r@ == self@.dist,
    {
        &self.distribution
    }

    /// Registers a held item. Fails with no mutation when the collector is
    /// full. A growing collector slots the item in at the index aligned with
    /// the supplied entry direction and re-sizes its formation; otherwise the
    /// item is appended.
    pub fn insert(&mut self, item: usize, dir: Option<u32>) -> (r: bool)
        requires
            old(self).wf(),
        ensures
            final(self).wf(),
            r <==> old(self)@.collected.len() < old(self)@.capacity,
            !r ==> final(self)@ == old(self)@,
            r ==> final(self)@ == insert_model(old(self)@, item, dir),
            r ==> final(self)@.collected.len() == old(self)@.collected.len() + 1,
    {
        if self.collected.len() >= self.capacity {
            return false;
        }
        let ghost v0 = self@;
        let mut idx = self.collected.len();
        if self.growing {
            if let Some(d) = dir {
                match self.distribution.find_closest_aligned_point(d) {
                    Some((i, _)) => {
                        proof {
                            lemma_is_closest_unique(
                                v0.dist.points,
                                norm_angle(d as int),
                                i as int,
                                closest_index(v0.dist.points, norm_angle(d as int)),
                            );
                        }
                        idx = i;
                    },
                    None => {
                    },
                }
            }
        }
        self.collected.insert(idx, item);
        if self.growing {
            let n = self.collected.len();
            self.distribution.update(n, self.shape);
        }
        proof {
            assert(self@ =~= insert_model(v0, item, dir));
        }
        true
    }

    /// Removes a held item by identity: the first occurrence leaves the held
    /// list and a growing collector re-sizes its formation. An absent item is
    /// a benign no-op that returns `None`.
    pub fn remove(&mut self, item: usize) -> (r: Option<usize>)
        requires
            old(self).wf(),
        ensures
            final(self).wf(),
            r is Some <==> old(self)@.collected.contains(item),
            r is Some ==> r == Some(item),
            final(self)@ == remove_model(old(self)@, item),
    {
        let ghost v0 = self@;
        let n = self.collected.len();
        let mut i: usize = 0;
        while i < n
            invariant
                i <= n,
                self@ == v0,
                v0 == old(self)@,
                collector_wf(v0),
                n == v0.collected.len(),
                forall|j: int| 0 <= j < i ==> v0.collected[j] != item,
            decreases n - i,
        {
            if self.collected[i] == item {
                proof {
                    lemma_first_index_char(v0.collected, item, i as int);
                    assert(v0.collected.contains(item));
                }
                self.collected.remove(i);
                if self.growing {
                    let m = self.collected.len();
                    self.distribution.update(m, self.shape);
                }
                proof {
                    assert(self@ =~= remove_model(v0, item));
                }
                return Some(item);
            }
            i += 1;
        }
        proof {
            if v0.collected.contains(item) {
                let w = choose|w: int| 0 <= w < v0.collected.len() && v0.collected[w] == item;
                assert(v0.collected[w] != item);
            }
        }
        None
    }

    /// Switches the formation layout and immediately regenerates the slot
    /// cache at the relevant count, so the shape change never leaves a
    /// mismatched slot set.
    pub fn set_shape(&mut self, shape: DistributionShape)
        requires
            old(self).wf(),
            shape is Arc ==> old(self)@.growing && old(self)@.min_radius >= 1,
        ensures
            final(self).wf(),
            final(self)@.shape == shape,
            final(self)@.collected == old(self)@.collected,
            final(self)@.min_radius == old(self)@.min_radius,
            final(self)@.growing == old(self)@.growing,
            final(self)@.capacity == old(self)@.capacity,
            final(self)@.dist.min_radius == old(self)@.dist.min_radius,
            final(self)@.dist.max_distance == old(self)@.dist.max_distance,
            final(self)@.dist.current_angle == old(self)@.dist.current_angle,
            final(self)@.dist.points == points_spec(
                old(self)@.dist.min_radius,
                old(self)@.dist.max_distance,
                old(self)@.dist.current_angle,
                slot_count(old(self)@) as nat,
                shape,
            ),
    {
        self.shape = shape;
        if self.growing {
            let n = self.collected.len();
            self.distribution.update(n, shape);
        } else {
            let n = self.distribution.len();
            self.distribution.update(n, shape);
        }
    }

    /// Picks the held item whose slot is closest-aligned with `direction`
    /// and returns the deferred throw for it. Returns `None`, with nothing
    /// mutated, when no slot exists or the aligned slot has no matching held
    /// item (a desync possible only for fixed collectors).
    pub fn throw_collected(&self, direction: u32, force: u64) -> (r: Option<ThrowCommand>)
        requires
            self.wf(),
        ensures
            self@.dist.points.len() == 0 ==> r is None,
            self@.dist.points.len() > 0 ==> ({
                let idx = closest_index(self@.dist.points, norm_angle(direction as int));
                if idx < self@.collected.len() {
                    r == Some((ThrowCommand { item: self@.collected[idx], direction, force }))
                } else {
                    r is None
                }
            }),
    {
        match self.distribution.find_closest_aligned_point(direction) {
            None => None,
            Some((index, _)) => {
                proof {
                    lemma_is_closest_unique(
                        self@.dist.points,
                        norm_angle(direction as int),
                        index as int,
                        closest_index(self@.dist.points, norm_angle(direction as int)),
                    );
                }
                if index < self.collected.len() {
                    Some(ThrowCommand { item: self.collected[index], direction, force })
                } else {
                    None
                }
            },
        }
    }

    /// The idle reorientation of one physics step. A circular formation
    /// spins by the angle that keeps a constant tangential speed at its
    /// current radius; an arc formation snaps to the owner's forward angle.
    pub fn auto_rotate(&mut self, dt_ms: u64, forward: u32)
        requires
            old(self).wf(),
            dt_ms <= MAX_TICK_MS,
        ensures
            final(self).wf(),
            final(self)@.collected == old(self)@.collected,
            final(self)@.shape == old(self)@.shape,
            final(self)@.growing == old(self)@.growing,
            final(self)@.capacity == old(self)@.capacity,
            final(self)@.min_radius == old(self)@.min_radius,
            final(self)@.dist.min_radius == old(self)@.dist.min_radius,
            final(self)@.dist.max_distance == old(self)@.dist.max_distance,
            final(self)@.dist.points.len() == old(self)@.dist.points.len(),
            old(self)@.shape is Circle && collector_radius_spec(old(self)@) == 0 ==> final(self)@
                == old(self)@,
            old(self)@.shape is Circle && collector_radius_spec(old(self)@) > 0 ==> ({
                let delta = spin_delta(collector_radius_spec(old(self)@), dt_ms as int);
                &&& final(self)@.dist.current_angle == norm_angle(
                    old(self)@.dist.current_angle + delta,
                )
                &&& forall|i: int|
                    0 <= i < old(self)@.dist.points.len() ==> #[trigger] final(self)@.dist.points[i] == (PolarPoint {
                        angle: norm_angle(old(self)@.dist.points[i].angle + delta) as u32,
                        radius: old(self)@.dist.points[i].radius,
                    })
            }),
            old(self)@.shape is Arc ==> ({
                &&& final(self)@.dist.current_angle == norm_angle(forward as int)
                &&& forall|i: int|
                    0 <= i < old(self)@.dist.points.len() ==> #[trigger] final(self)@.dist.points[i] == (PolarPoint {
                        angle: norm_angle(
                            old(self)@.dist.points[i].angle + forward
                                - old(self)@.dist.current_angle,
                        ) as u32,
                        radius: old(self)@.dist.points[i].radius,
                    })
            }),
    {
        let ghost v0 = self@;
        match self.shape {
            DistributionShape::Circle => {
                let r = self.radius();
                if r > 0 {
                    proof {
                        lemma_mul_inequality(
                            v0.collected.len() as int,
                            MAX_COUNT as int,
                            v0.dist.max_distance,
                        );
                        lemma_mul_upper_bound(
                            v0.collected.len() as int,
                            MAX_COUNT as int,
                            v0.dist.max_distance,
                            MAX_SPACING as int,
                        );
                        lemma_div_is_ordered(
                            v0.collected.len() as int * v0.dist.max_distance * 1000,
                            MAX_COUNT as int * MAX_SPACING as int * 1000,
                            6283,
                        );
                        assert(r <= 0x7fff_ffff_ffff_ffff);
                    }
                    let raw: u64 = SPIN_SPEED * dt_ms * MDEG_PER_RAD / (1000 * r);
                    let delta = reduce_angle((raw % (FULL_TURN as u64)) as u32);
                    proof {
                        lemma_norm_angle_ok(raw as int);
                        lemma_norm_small((raw as int) % (FULL_TURN as int));
                        assert(delta == norm_angle(raw as int));
                    }
                    self.distribution.rotate(delta);
                    proof {
                        lemma_norm_add(raw as int, v0.dist.current_angle);
                        assert forall|i: int| 0 <= i < v0.dist.points.len() implies #[trigger] self@.dist.points[i]
                            == (PolarPoint {
                            angle: norm_angle(v0.dist.points[i].angle + raw as int) as u32,
                            radius: v0.dist.points[i].radius,
                        }) by {
                            lemma_norm_add(raw as int, v0.dist.points[i].angle as int);
                        }
                        lemma_layout_after_rotation(v0.dist, self@.dist, v0.shape, raw as int);
                    }
                }
            },
            DistributionShape::Arc => {
                self.distribution.set_direction(forward);
                proof {
                    lemma_layout_after_rotation(
                        v0.dist,
                        self@.dist,
                        v0.shape,
                        forward - v0.dist.current_angle,
                    );
                }
            },
        }
    }
}

/// A state whose slots are the old slots turned by `raw`, with the facing
/// angle turned the same way, is again exactly the layout its parameters
/// dictate.
proof fn lemma_layout_after_rotation(vd0: DistView, vd1: DistView, shape: DistributionShape, raw: int)
    requires
        vd0.points == points_spec(
            vd0.min_radius,
            vd0.max_distance,
            vd0.current_angle,
            vd0.points.len() as nat,
            shape,
        ),
        vd1.min_radius == vd0.min_radius,
        vd1.max_distance == vd0.max_distance,
        vd1.current_angle == norm_angle(vd0.current_angle + raw),
        vd1.points.len() == vd0.points.len(),
        forall|i: int|
            0 <= i < vd0.points.len() ==> #[trigger] vd1.points[i] == (PolarPoint {
                angle: norm_angle(vd0.points[i].angle + raw) as u32,
                radius: vd0.points[i].radius,
            }),
    ensures
        vd1.points == points_spec(
            vd1.min_radius,
            vd1.max_distance,
            vd1.current_angle,
            vd1.points.len() as nat,
            shape,
        ),
{
    lemma_points_spec_rotated(
        vd0.min_radius,
        vd0.max_distance,
        vd0.current_angle,
        raw,
        vd0.points.len() as nat,
        shape,
    );
    assert(vd1.points =~= points_spec(
        vd0.min_radius,
        vd0.max_distance,
        norm_angle(vd0.current_angle + raw),
        vd0.points.len() as nat,
        shape,
    ));
}

/// The spin of one step: the angle whose arc at `radius` is covered in
/// `dt_ms` at the constant tangential speed, in thousandths of a degree.
pub open spec fn spin_delta(radius: int, dt_ms: int) -> int {
    SPIN_SPEED as int * dt_ms * MDEG_PER_RAD as int / (1000 * radius)
}

/// Inserting an item into a growing collector that does not already hold it
/// and then removing that item restores the collector exactly: held list,
/// cached slots and radius all return to their pre-insert values.
pub proof fn lemma_insert_remove_round_trip(v: CollectorView, item: usize, dir: Option<u32>)
    requires
        collector_wf(v),
        v.growing,
        !v.collected.contains(item),
        v.collected.len() < v.capacity,
    ensures
        remove_model(insert_model(v, item, dir), item) == v,
{
    let idx = insert_index(v, dir);
    if v.growing && dir is Some && v.dist.points.len() > 0 {
        lemma_is_closest_exists(v.dist.points, norm_angle(dir->0 as int));
    }
    assert(0 <= idx <= v.collected.len());
    let s1 = v.collected.insert(idx, item);
    assert(s1[idx] == item);
    assert forall|j: int| 0 <= j < idx implies s1[j] != item by {
        assert(s1[j] == v.collected[j]);
        if v.collected[j] == item {
            assert(v.collected.contains(item));
        }
    }
    lemma_first_index_char(s1, item, idx);
    assert(s1.contains(item));
    let v1 = insert_model(v, item, dir);
    assert(v1.collected == s1);
    let s2 = s1.remove(idx);
    assert(s2 =~= v.collected);
    lemma_points_spec_len(
        v.dist.min_radius,
        v.dist.max_distance,
        v.dist.current_angle,
        s1.len(),
        v.shape,
    );
    assert(remove_model(v1, item).dist =~= v.dist);
    assert(remove_model(v1, item) =~= v);
}

} // verus!
