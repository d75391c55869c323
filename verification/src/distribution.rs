//! The point distribution: the geometry engine that spaces slot offsets
//! around a center.
//!
//! Slots are cached as polar offsets from the origin: an angle in thousandths
//! of a degree and a distance in thousandths of a world unit. A `Circle`
//! layout is a single ring of evenly spaced slots whose radius grows with the
//! slot count; an `Arc` layout is a forward-facing fan of angular bands that
//! step outward in radius as they fill.

use vstd::prelude::*;
use vstd::arithmetic::div_mod::*;
use vstd::arithmetic::mul::*;
use crate::angle::{
    FULL_TURN, angle_ok, norm_angle, circ_dist, add_angle, sub_angle, reduce_angle, angle_between,
    lemma_norm_angle_ok, lemma_norm_small, lemma_norm_add, lemma_even_spacing_cover,
};

verus! {

/// Two pi in thousandths of a radian, the divisor that turns a circumference
/// into a radius.
pub const TAU_MILLI: u64 = 6283;

/// Thousandths of a degree per radian, used to turn an arc length at a given
/// radius into an angle.
pub const MDEG_PER_RAD: u64 = 57_296;

/// The angular cap of one arc band: an eighth of a turn.
pub const BAND_CAP: u64 = 45_000;

/// The largest slot count a distribution accepts.
pub const MAX_COUNT: usize = 1_000_000;

/// The largest spacing between slots, in thousandths of a unit.
pub const MAX_SPACING: u64 = 100_000_000;

/// The largest minimum radius, in thousandths of a unit.
pub const MAX_BASE_RADIUS: u64 = 1_000_000_000_000;

/// A slot offset from the distribution center, in polar form.
#[derive(Debug, Clone, Copy, PartialEq, Eq, Structural)]
pub struct PolarPoint {
    /// Polar angle, in thousandths of a degree, always canonical.
    pub angle: u32,
    /// Distance from the center, in thousandths of a unit.
    pub radius: u64,
}

/// The two formation layouts.
#[derive(Debug, Clone, Copy, PartialEq, Eq, Structural)]
pub enum DistributionShape {
    /// A single ring of evenly spaced slots.
    Circle,
    /// A forward-facing fan of banded slots.
    Arc,
}

/// The mathematical content of a distribution.
#[verifier::ext_equal]
pub ghost struct DistView {
    pub min_radius: int,
    pub max_distance: int,
    pub current_angle: int,
    pub points: Seq<PolarPoint>,
}

/// The ring radius for `amount` slots spaced `max_distance` apart:
/// the circumference divided by two pi, but never below `min_radius`.
pub open spec fn radius_spec(min_radius: int, max_distance: int, amount: int) -> int {
    let calculated = amount * max_distance * 1000 / (TAU_MILLI as int);
    if calculated > min_radius {
        calculated
    } else {
        min_radius
    }
}

/// The ring layout: `amount` slots at equal angular steps starting at
/// `current_angle`, all at the ring radius.
pub open spec fn circle_points(
    min_radius: int,
    max_distance: int,
    current_angle: int,
    amount: nat,
) -> Seq<PolarPoint> {
    Seq::new(
        amount,
        |i: int|
            PolarPoint {
                angle: norm_angle(
                    current_angle + i * (FULL_TURN as int / amount as int),
                ) as u32,
                radius: radius_spec(min_radius, max_distance, amount as int) as u64,
            },
    )
}

/// The angle subtended by an arc of length `max_distance` at `radius`, in
/// thousandths of a degree.
pub open spec fn arc_theta(max_distance: int, radius: int) -> int {
    max_distance * (MDEG_PER_RAD as int) / radius
}

/// The running state of the fan layout: the index where the current band
/// started, the current band radius, and the slots placed so far.
pub ghost struct ArcState {
    pub offset: int,
    pub radius: int,
    pub points: Seq<PolarPoint>,
}

/// The fan layout after placing the first `n` slots. Within a band the
/// angular offset from the facing angle grows by one subtended spacing per
/// slot and alternates sign with the slot's parity; when it would pass the
/// band cap a new band starts one spacing further out, at offset zero.
pub open spec fn arc_build(
    min_radius: int,
    max_distance: int,
    current_angle: int,
    n: nat,
) -> ArcState
    decreases n,
{
    if n == 0 {
        ArcState { offset: 0, radius: min_radius, points: Seq::empty() }
    } else {
        let prev = arc_build(min_radius, max_distance, current_angle, (n - 1) as nat);
        let i = n - 1;
        let theta = arc_theta(max_distance, prev.radius);
        let grown = (i - prev.offset) * theta;
        let exceeded = grown > BAND_CAP;
        let radius = if exceeded {
            prev.radius + max_distance
        } else {
            prev.radius
        };
        let swing = if exceeded {
            0
        } else {
            grown
        };
        let ang = if i % 2 == 0 {
            norm_angle(current_angle + swing)
        } else {
            norm_angle(current_angle - swing)
        };
        ArcState {
            offset: if exceeded { i } else { prev.offset },
            radius,
            points: prev.points.push(
                (PolarPoint { angle: ang as u32, radius: radius as u64 }),
            ),
        }
    }
}

/// The slots of either layout, as a function of the distribution parameters.
pub open spec fn points_spec(
    min_radius: int,
    max_distance: int,
    current_angle: int,
    amount: nat,
    shape: DistributionShape,
) -> Seq<PolarPoint> {
    match shape {
        DistributionShape::Circle => circle_points(min_radius, max_distance, current_angle, amount),
        DistributionShape::Arc => arc_build(min_radius, max_distance, current_angle, amount).points,
    }
}

pub proof fn lemma_arc_build_len(min_radius: int, max_distance: int, current_angle: int, n: nat)
    ensures
        arc_build(min_radius, max_distance, current_angle, n).points.len() == n,
    decreases n,
{
    if n > 0 {
        lemma_arc_build_len(min_radius, max_distance, current_angle, (n - 1) as nat);
    }
}

pub proof fn lemma_points_spec_len(
    min_radius: int,
    max_distance: int,
    current_angle: int,
    amount: nat,
    shape: DistributionShape,
)
    ensures
        points_spec(min_radius, max_distance, current_angle, amount, shape).len() == amount,
{
    if shape is Arc {
        lemma_arc_build_len(min_radius, max_distance, current_angle, amount);
    }
}

/// The ring radius never falls below the minimum radius and never shrinks
/// as the slot count grows.
pub proof fn lemma_radius_monotonic(min_radius: int, max_distance: int, n1: int, n2: int)
    requires
        0 <= min_radius,
        0 <= max_distance,
        0 <= n1 <= n2,
    ensures
        min_radius <= radius_spec(min_radius, max_distance, n1),
        radius_spec(min_radius, max_distance, n1) <= radius_spec(min_radius, max_distance, n2),
{
    lemma_mul_inequality(n1, n2, max_distance);
    lemma_mul_inequality(n1 * max_distance, n2 * max_distance, 1000);
    lemma_div_is_ordered(n1 * max_distance * 1000, n2 * max_distance * 1000, TAU_MILLI as int);
}

/// Regenerating a layout from a facing angle turned by `delta` yields the
/// old layout with every slot turned by `delta`, each at its old distance
/// from the center.
pub proof fn lemma_points_spec_rotated(
    min_radius: int,
    max_distance: int,
    current_angle: int,
    delta: int,
    amount: nat,
    shape: DistributionShape,
)
    ensures
        points_spec(min_radius, max_distance, norm_angle(current_angle + delta), amount, shape).len()
            == amount,
        points_spec(min_radius, max_distance, current_angle, amount, shape).len() == amount,
        forall|i: int|
            0 <= i < amount ==> #[trigger] points_spec(
                min_radius,
                max_distance,
                norm_angle(current_angle + delta),
                amount,
                shape,
            )[i] == (PolarPoint {
                angle: norm_angle(
                    points_spec(min_radius, max_distance, current_angle, amount, shape)[i].angle
                        + delta,
                ) as u32,
                radius: points_spec(min_radius, max_distance, current_angle, amount, shape)[i].radius,
            }),
{
    lemma_points_spec_len(min_radius, max_distance, current_angle, amount, shape);
    lemma_points_spec_len(min_radius, max_distance, norm_angle(current_angle + delta), amount, shape);
    match shape {
        DistributionShape::Circle => {
            let step = FULL_TURN as int / amount as int;
            assert forall|i: int| 0 <= i < amount implies #[trigger] circle_points(
                min_radius,
                max_distance,
                norm_angle(current_angle + delta),
                amount,
            )[i] == (PolarPoint {
                angle: norm_angle(
                    circle_points(min_radius, max_distance, current_angle, amount)[i].angle + delta,
                ) as u32,
                radius: circle_points(min_radius, max_distance, current_angle, amount)[i].radius,
            }) by {
                lemma_norm_angle_ok(current_angle + i * step);
                lemma_norm_angle_ok(current_angle + delta);
                lemma_norm_add(current_angle + delta, i * step);
                lemma_norm_add(current_angle + i * step, delta);
            }
        },
        DistributionShape::Arc => {
            lemma_arc_build_rotated(min_radius, max_distance, current_angle, delta, amount);
        },
    }
}

proof fn lemma_arc_build_rotated(
    min_radius: int,
    max_distance: int,
    current_angle: int,
    delta: int,
    n: nat,
)
    ensures
        arc_build(min_radius, max_distance, norm_angle(current_angle + delta), n).offset
            == arc_build(min_radius, max_distance, current_angle, n).offset,
        arc_build(min_radius, max_distance, norm_angle(current_angle + delta), n).radius
            == arc_build(min_radius, max_distance, current_angle, n).radius,
        arc_build(min_radius, max_distance, norm_angle(current_angle + delta), n).points.len() == n,
        arc_build(min_radius, max_distance, current_angle, n).points.len() == n,
        forall|i: int|
            0 <= i < n ==> #[trigger] arc_build(
                min_radius,
                max_distance,
                norm_angle(current_angle + delta),
                n,
            ).points[i] == (PolarPoint {
                angle: norm_angle(
                    arc_build(min_radius, max_distance, current_angle, n).points[i].angle + delta,
                ) as u32,
                radius: arc_build(min_radius, max_distance, current_angle, n).points[i].radius,
            }),
    decreases n,
{
    lemma_arc_build_len(min_radius, max_distance, current_angle, n);
    lemma_arc_build_len(min_radius, max_distance, norm_angle(current_angle + delta), n);
    if n > 0 {
        lemma_arc_build_rotated(min_radius, max_distance, current_angle, delta, (n - 1) as nat);
        let prev = arc_build(min_radius, max_distance, current_angle, (n - 1) as nat);
        let i = n - 1;
        let theta = arc_theta(max_distance, prev.radius);
        let grown = (i - prev.offset) * theta;
        let swing: int = if grown > BAND_CAP {
            0
        } else {
            grown
        };
        lemma_norm_angle_ok(current_angle + delta);
        lemma_norm_angle_ok(current_angle + swing);
        lemma_norm_angle_ok(current_angle - swing);
        lemma_norm_add(current_angle + delta, swing);
        lemma_norm_add(current_angle + delta, 0 - swing);
        lemma_norm_add(current_angle + swing, delta);
        lemma_norm_add(current_angle - swing, delta);
    }
}

/// The closest-aligned slot of an exactly even ring of `k` slots misses the
/// queried direction by at most half an angular step: a turn over `2 k`.
pub proof fn lemma_closest_alignment_bound(
    min_radius: int,
    max_distance: int,
    current_angle: int,
    k: nat,
    q: int,
    i: int,
)
    requires
        1 <= k,
        FULL_TURN as int % k as int == 0,
        angle_ok(q),
        is_closest(circle_points(min_radius, max_distance, current_angle, k), q, i),
    ensures
        circ_dist(q, circle_points(min_radius, max_distance, current_angle, k)[i].angle as int)
            <= FULL_TURN as int / (2 * k as int),
{
    let pts = circle_points(min_radius, max_distance, current_angle, k);
    let step = FULL_TURN as int / k as int;
    lemma_even_spacing_cover(current_angle, k as int, q);
    let j = choose|j: int|
        0 <= j < k && #[trigger] circ_dist(q, norm_angle(current_angle + j * step))
            <= FULL_TURN as int / (2 * k as int);
    lemma_norm_angle_ok(current_angle + j * step);
    assert(pts[j].angle as int == norm_angle(current_angle + j * step));
    assert(circ_dist(q, pts[j].angle as int) >= circ_dist(q, pts[i].angle as int));
}

/// A distribution of slot offsets around a center, with a cached slot set.
pub struct PointDistribution {
    min_radius: u64,
    max_distance: u64,
    current_angle: u32,
    points: Vec<PolarPoint>,
}

impl View for PointDistribution {
    type V = DistView;

    closed spec fn view(&self) -> DistView {
        DistView {
            min_radius: self.min_radius as int,
            max_distance: self.max_distance as int,
            current_angle: self.current_angle as int,
            points: self.points@,
        }
    }
}

/// Everything the distribution operations rely on: parameters within machine
/// bounds and every cached angle canonical.
pub open spec fn dist_wf(v: DistView) -> bool {
    &&& 0 <= v.min_radius <= MAX_BASE_RADIUS
    &&& 0 <= v.max_distance <= MAX_SPACING
    &&& angle_ok(v.current_angle)
    &&& v.points.len() <= MAX_COUNT
    &&& forall|i: int| 0 <= i < v.points.len() ==> angle_ok(#[trigger] v.points[i].angle as int)
}

impl PointDistribution {
    /// Everything the other operations rely on: parameters within machine
    /// bounds and every cached angle canonical.
    pub open spec fn wf(&self) -> bool {
        dist_wf(self@)
    }

    /// An empty distribution with the given minimum radius and slot spacing.
    pub fn new(min_radius: u64, max_distance: u64) -> (r: Self)
        requires
            min_radius <= MAX_BASE_RADIUS,
            max_distance <= MAX_SPACING,
        ensures
            r.wf(),
            r@.min_radius == min_radius,
            r@.max_distance == max_distance,
            r@.current_angle == 0,
            r@.points.len() == 0,
    {
        PointDistribution { min_radius, max_distance, current_angle: 0, points: Vec::new() }
    }

    /// The ring radius this distribution would use for `amount` slots.
    pub fn radius(&self, amount: usize) -> (r: u64)
        requires
            self.wf(),
            amount <= MAX_COUNT,
        ensures
            r == radius_spec(self@.min_radius, self@.max_distance, amount as int),
    {
        proof {
            lemma_mul_inequality(amount as int, MAX_COUNT as int, self@.max_distance);
            lemma_mul_upper_bound(
                amount as int,
                MAX_COUNT as int,
                self@.max_distance,
                MAX_SPACING as int,
            );
        }
        let circumference: u64 = (amount as u64) * self.max_distance;
        let calculated: u64 = circumference * 1000 / TAU_MILLI;
        if calculated > self.min_radius {
            calculated
        } else {
            self.min_radius
        }
    }

    /// The number of cached slots.
    pub fn len(&self) -> (r: usize)
        ensures
            r == self@.points.len(),
    {
        self.points.len()
    }

    /// The cached slots, in placement order.
    pub fn points(&self) -> (r: &Vec<PolarPoint>)
        ensures
            r@ == self@.points,
    {
        &self.points
    }

    /// Regenerates the cached slot set for `amount` slots in the given
    /// layout, from the current facing angle.
    pub fn update(&mut self, amount: usize, shape: DistributionShape)
        requires
            old(self).wf(),
            amount <= MAX_COUNT,
            shape is Arc ==> old(self)@.min_radius >= 1,
        ensures
            final(self).wf(),
            final(self)@.min_radius == old(self)@.min_radius,
            final(self)@.max_distance == old(self)@.max_distance,
            final(self)@.current_angle == old(self)@.current_angle,
            final(self)@.points == points_spec(
                old(self)@.min_radius,
                old(self)@.max_distance,
                old(self)@.current_angle,
                amount as nat,
                shape,
            ),
            final(self)@.points.len() == amount,
    {
        let ghost gmin = self@.min_radius;
        let ghost gmax = self@.max_distance;
        let ghost gcur = self@.current_angle;
        match shape {
            DistributionShape::Circle => {
                let ring = self.radius(amount);
                let mut pts: Vec<PolarPoint> = Vec::new();
                if amount > 0 {
                    let theta: u32 = FULL_TURN / (amount as u32);
                    let mut i: usize = 0;
                    while i < amount
                        invariant
                            0 < amount <= MAX_COUNT,
                            i <= amount,
                            theta == FULL_TURN as int / amount as int,
                            angle_ok(gcur),
                            gcur == self@.current_angle,
                            ring == radius_spec(gmin, gmax, amount as int),
                            pts@.len() == i,
                            forall|j: int|
                                0 <= j < i ==> #[trigger] pts@[j] == circle_points(
                                    gmin,
                                    gmax,
                                    gcur,
                                    amount as nat,
                                )[j],
                            forall|j: int|
                                0 <= j < i ==> angle_ok(#[trigger] pts@[j].angle as int),
                        decreases amount - i,
                    {
                        proof {
                            lemma_mul_inequality(i as int, MAX_COUNT as int, theta as int);
                            lemma_mul_nonnegative(i as int, theta as int);
                            lemma_norm_angle_ok(gcur + i * theta);
                        }
                        let a: u64 = (self.current_angle as u64 + (i as u64) * (theta as u64))
                            % (FULL_TURN as u64);
                        pts.push(PolarPoint { angle: a as u32, radius: ring });
                        i += 1;
                    }
                }
                proof {
                    assert(pts@ =~= circle_points(gmin, gmax, gcur, amount as nat));
                }
                self.points = pts;
            },
            DistributionShape::Arc => {
                let mut pts: Vec<PolarPoint> = Vec::new();
                let mut band_radius: u64 = self.min_radius;
                let mut band_start: usize = 0;
                let mut i: usize = 0;
                proof {
                    assert(pts@ =~= Seq::<PolarPoint>::empty());
                }
                while i < amount
                    invariant
                        amount <= MAX_COUNT,
                        i <= amount,
                        band_start <= i,
                        1 <= gmin <= MAX_BASE_RADIUS,
                        0 <= gmax <= MAX_SPACING,
                        angle_ok(gcur),
                        gcur == self@.current_angle,
                        gmax == self@.max_distance,
                        1 <= band_radius <= gmin + i * gmax,
                        band_start as int == arc_build(gmin, gmax, gcur, i as nat).offset,
                        band_radius as int == arc_build(gmin, gmax, gcur, i as nat).radius,
                        pts@ == arc_build(gmin, gmax, gcur, i as nat).points,
                        pts@.len() == i,
                        forall|j: int| 0 <= j < i ==> angle_ok(#[trigger] pts@[j].angle as int),
                    decreases amount - i,
                {
                    proof {
                        lemma_mul_inequality(i as int, MAX_COUNT as int, gmax);
                        lemma_mul_inequality(
                            self@.max_distance,
                            MAX_SPACING as int,
                            MDEG_PER_RAD as int,
                        );
                        lemma_mul_nonnegative(self@.max_distance, MDEG_PER_RAD as int);
                    }
                    let theta: u64 = self.max_distance * MDEG_PER_RAD / band_radius;
                    proof {
                        lemma_mul_inequality(
                            (i - band_start) as int,
                            MAX_COUNT as int,
                            theta as int,
                        );
                        lemma_mul_nonnegative((i - band_start) as int, theta as int);
                    }
                    let grown: u64 = ((i - band_start) as u64) * theta;
                    let swing: u64;
                    if grown > BAND_CAP {
                        band_start = i;
                        band_radius = band_radius + self.max_distance;
                        swing = 0;
                    } else {
                        swing = grown;
                    }
                    let ang = if i % 2 == 0 {
                        add_angle(self.current_angle, swing as u32)
                    } else {
                        sub_angle(self.current_angle, swing as u32)
                    };
                    proof {
                        lemma_norm_angle_ok(gcur + swing);
                        lemma_norm_angle_ok(gcur - swing);
                    }
                    pts.push(PolarPoint { angle: ang, radius: band_radius });
                    proof {
                        assert((i + 1) * gmax == i * gmax + gmax) by (nonlinear_arith);
                    }
                    i += 1;
                }
                self.points = pts;
            },
        }
    }

    /// Turns the whole formation: adds `delta` to the facing angle and to
    /// every cached slot's polar angle, leaving every slot's distance from
    /// the center unchanged.
    pub fn rotate(&mut self, delta: u32)
        requires
            old(self).wf(),
        ensures
            final(self).wf(),
            final(self)@.min_radius == old(self)@.min_radius,
            final(self)@.max_distance == old(self)@.max_distance,
            final(self)@.current_angle == norm_angle(old(self)@.current_angle + delta),
            final(self)@.points.len() == old(self)@.points.len(),
            forall|i: int|
                0 <= i < old(self)@.points.len() ==> #[trigger] final(self)@.points[i]
                    == (PolarPoint {
                    angle: norm_angle(old(self)@.points[i].angle + delta) as u32,
                    radius: old(self)@.points[i].radius,
                }),
    {
        let d = reduce_angle(delta);
        proof {
            lemma_norm_angle_ok(delta as int);
            lemma_norm_add(delta as int, self@.current_angle);
        }
        self.current_angle = add_angle(self.current_angle, d);
        let n = self.points.len();
        let mut i: usize = 0;
        while i < n
            invariant
                i <= n,
                d == norm_angle(delta as int),
                angle_ok(d as int),
                n == old(self)@.points.len(),
                self@.points.len() == n,
                self@.min_radius == old(self)@.min_radius,
                self@.max_distance == old(self)@.max_distance,
                self@.current_angle == norm_angle(old(self)@.current_angle + delta),
                angle_ok(self@.current_angle),
                forall|j: int|
                    0 <= j < i ==> #[trigger] self@.points[j] == (PolarPoint {
                        angle: norm_angle(old(self)@.points[j].angle + delta) as u32,
                        radius: old(self)@.points[j].radius,
                    }),
                forall|j: int|
                    i <= j < n ==> #[trigger] self@.points[j] == old(self)@.points[j],
                forall|j: int|
                    0 <= j < n ==> angle_ok(#[trigger] old(self)@.points[j].angle as int),
                forall|j: int| 0 <= j < i ==> angle_ok(#[trigger] self@.points[j].angle as int),
            decreases n - i,
        {
            let p = self.points[i];
            proof {
                lemma_norm_add(delta as int, p.angle as int);
                lemma_norm_angle_ok(p.angle + delta);
            }
            let a = add_angle(p.angle, d);
            self.points.set(i, PolarPoint { angle: a, radius: p.radius });
            i += 1;
        }
    }

    /// Reorients the formation to face `direction`: rotates everything by
    /// the angular delta between the current facing angle and `direction`.
    pub fn set_direction(&mut self, direction: u32)
        requires
            old(self).wf(),
        ensures
            final(self).wf(),
            final(self)@.min_radius == old(self)@.min_radius,
            final(self)@.max_distance == old(self)@.max_distance,
            final(self)@.current_angle == norm_angle(direction as int),
            final(self)@.points.len() == old(self)@.points.len(),
            forall|i: int|
                0 <= i < old(self)@.points.len() ==> #[trigger] final(self)@.points[i]
                    == (PolarPoint {
                    angle: norm_angle(
                        old(self)@.points[i].angle + direction - old(self)@.current_angle,
                    ) as u32,
                    radius: old(self)@.points[i].radius,
                }),
    {
        let ghost cur0 = self@.current_angle;
        let ghost pts0 = self@.points;
        let dir = reduce_angle(direction);
        proof {
            lemma_norm_angle_ok(direction as int);
        }
        let delta = sub_angle(dir, self.current_angle);
        self.rotate(delta);
        proof {
            lemma_norm_add(direction as int, 0 - cur0);
            lemma_norm_add(dir - cur0, cur0);
            lemma_norm_small(dir as int);
            assert forall|i: int| 0 <= i < pts0.len() implies #[trigger] self@.points[i]
                == (PolarPoint {
                angle: norm_angle(pts0[i].angle + direction - cur0) as u32,
                radius: pts0[i].radius,
            }) by {
                lemma_norm_add(dir - cur0, pts0[i].angle as int);
                lemma_norm_add(direction as int, pts0[i].angle - cur0);
            }
        }
    }

    /// Finds the cached slot whose polar angle is circularly closest to
    /// `direction`; the first slot in placement order wins ties. `None`
    /// exactly when the cache is empty.
    pub fn find_closest_aligned_point(&self, direction: u32) -> (r: Option<(usize, PolarPoint)>)
        requires
            self.wf(),
        ensures
            r is None <==> self@.points.len() == 0,
            r matches Some((i, p)) ==> i < self@.points.len() && p == self@.points[i as int]
                && is_closest(self@.points, norm_angle(direction as int), i as int),
    {
        if self.points.len() == 0 {
            return None;
        }
        let target = reduce_angle(direction);
        proof {
            lemma_norm_angle_ok(direction as int);
        }
        let mut best: usize = 0;
        let mut best_dist = angle_between(target, self.points[0].angle);
        let n = self.points.len();
        let mut i: usize = 1;
        while i < n
            invariant
                1 <= i <= n,
                best < i,
                n == self@.points.len(),
                self.wf(),
                angle_ok(target as int),
                target == norm_angle(direction as int),
                best_dist == circ_dist(target as int, self@.points[best as int].angle as int),
                forall|j: int|
                    0 <= j < i ==> circ_dist(
                        target as int,
                        #[trigger] self@.points[j].angle as int,
                    ) >= best_dist,
                forall|j: int|
                    0 <= j < best ==> circ_dist(
                        target as int,
                        #[trigger] self@.points[j].angle as int,
                    ) > best_dist,
            decreases n - i,
        {
            let d = angle_between(target, self.points[i].angle);
            if d < best_dist {
                best = i;
                best_dist = d;
            }
            i += 1;
        }
        Some((best, self.points[best]))
    }
}

/// Slot `i` is the closest-aligned slot for `target`: no slot is circularly
/// closer, and every earlier slot is strictly farther.
pub open spec fn is_closest(pts: Seq<PolarPoint>, target: int, i: int) -> bool {
    &&& 0 <= i < pts.len()
    &&& forall|j: int|
        0 <= j < pts.len() ==> circ_dist(target, #[trigger] pts[j].angle as int) >= circ_dist(
            target,
            pts[i].angle as int,
        )
    &&& forall|j: int|
        0 <= j < i ==> circ_dist(target, #[trigger] pts[j].angle as int) > circ_dist(
            target,
            pts[i].angle as int,
        )
}

} // verus!
