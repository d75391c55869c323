//! The spine chain: a trailing sequence of anchored points that follows a
//! moving owner, used to bend a flat formation along a winding body.
//!
//! Node zero snaps to the owner each tick; every later node is pulled to a
//! fixed distance from its predecessor along the direction that joins them
//! and is kept above a floor height. Positions are in thousandths of a world
//! unit; directions are unit vectors scaled by a thousand.

use vstd::prelude::*;
use vstd::arithmetic::mul::{lemma_mul_inequality, lemma_mul_upper_bound, lemma_mul_nonnegative};
use vstd::arithmetic::div_mod::{
    lemma_div_is_ordered, lemma_div_by_multiple, lemma_fundamental_div_mod_converse,
};
use crate::distribution::{PointDistribution, PolarPoint, MAX_COUNT};

verus! {

/// The largest coordinate of an anchor point, in thousandths of a unit.
pub const MAX_COORD: i64 = 1_000_000_000;

/// The largest coordinate any chain node can reach, in thousandths.
pub const MAX_NODE_COORD: i64 = 1_100_000_000;

/// The largest spacing between chain nodes, in thousandths.
pub const MAX_POINT_RADIUS: u64 = 1_000_000;

/// The largest chain length.
pub const MAX_NODES: usize = 100;

/// The scale of a unit direction vector.
pub const UNIT: i64 = 1000;

/// A fixed-point three-dimensional vector, in thousandths of a unit.
#[derive(Debug, Clone, Copy, PartialEq, Eq, Structural)]
pub struct Vec3M {
    pub x: i64,
    pub y: i64,
    pub z: i64,
}

/// The mathematical value of a vector.
#[verifier::ext_equal]
pub ghost struct V3 {
    pub x: int,
    pub y: int,
    pub z: int,
}

impl View for Vec3M {
    type V = V3;

    open spec fn view(&self) -> V3 {
        V3 { x: self.x as int, y: self.y as int, z: self.z as int }
    }
}

/// The squared length of a vector.
pub open spec fn norm2(v: V3) -> int {
    v.x * v.x + v.y * v.y + v.z * v.z
}

/// `r` is the integer square root of `n`.
pub open spec fn is_sqrt(n: int, r: int) -> bool {
    0 <= r && r * r <= n && n < (r + 1) * (r + 1)
}

/// The integer square root.
pub open spec fn sqrt_val(n: int) -> int {
    choose|r: int| is_sqrt(n, r)
}

/// Every nonnegative integer has an integer square root, and `sqrt_val`
/// denotes it.
pub proof fn lemma_sqrt_exists(n: int)
    requires
        n >= 0,
    ensures
        is_sqrt(n, sqrt_val(n)),
    decreases n,
{
    if n == 0 {
        assert(is_sqrt(0, 0));
    } else {
        lemma_sqrt_exists(n - 1);
        let r = sqrt_val(n - 1);
        if n < (r + 1) * (r + 1) {
            assert(is_sqrt(n, r));
        } else {
            assert((r + 1) * (r + 1) <= n);
            assert(n - 1 < (r + 1) * (r + 1)) by (nonlinear_arith)
                requires
                    is_sqrt(n - 1, r),
            ;
            assert(n < (r + 2) * (r + 2)) by (nonlinear_arith)
                requires
                    n == (r + 1) * (r + 1),
                    r >= 0,
            ;
            assert(is_sqrt(n, r + 1));
        }
    }
}

/// The integer square root is unique.
pub proof fn lemma_sqrt_unique(n: int, r1: int, r2: int)
    requires
        is_sqrt(n, r1),
        is_sqrt(n, r2),
    ensures
        r1 == r2,
{
    if r1 < r2 {
        assert((r1 + 1) * (r1 + 1) <= r2 * r2) by (nonlinear_arith)
            requires
                0 <= r1 < r2,
        ;
    }
    if r2 < r1 {
        assert((r2 + 1) * (r2 + 1) <= r1 * r1) by (nonlinear_arith)
            requires
                0 <= r2 < r1,
        ;
    }
}

/// The integer square root, by bisection.
pub fn isqrt(n: u64) -> (r: u64)
    ensures
        r as int == sqrt_val(n as int),
        is_sqrt(n as int, r as int),
{
    let mut lo: u64 = 0;
    let mut hi: u64 = 4_294_967_296;
    proof {
        assert((hi as int) * (hi as int) > n as int) by (nonlinear_arith)
            requires
                hi == 0x1_0000_0000u64,
                n <= u64::MAX,
        ;
    }
    while lo + 1 < hi
        invariant
            lo < hi <= 0x1_0000_0000u64,
            (lo as int) * (lo as int) <= n as int,
            (hi as int) * (hi as int) > n as int,
        decreases hi - lo,
    {
        let mid = lo + (hi - lo) / 2;
        proof {
            assert(mid < hi);
            assert((mid as int) * (mid as int) < 0x1_0000_0000_0000_0000) by (nonlinear_arith)
                requires
                    mid < 0x1_0000_0000u64,
            ;
        }
        if mid * mid <= n {
            lo = mid;
        } else {
            hi = mid;
        }
    }
    proof {
        assert(is_sqrt(n as int, lo as int));
        lemma_sqrt_exists(n as int);
        lemma_sqrt_unique(n as int, lo as int, sqrt_val(n as int));
    }
    lo
}

/// Signed division that rounds toward zero, for a positive divisor.
pub open spec fn stdiv(c: int, d: int) -> int {
    if c >= 0 {
        c / d
    } else {
        0 - ((0 - c) / d)
    }
}

/// The zero vector.
pub open spec fn v3_zero() -> V3 {
    V3 { x: 0, y: 0, z: 0 }
}

/// The unit direction scaled by a thousand that points along `d`, or the
/// unit z axis when `d` is zero (a degenerate difference keeps the default
/// heading).
pub open spec fn unit_dir(d: V3) -> V3 {
    if d == v3_zero() {
        V3 { x: 0, y: 0, z: UNIT as int }
    } else {
        let n = sqrt_val(norm2(d));
        V3 { x: stdiv(d.x * 1000, n), y: stdiv(d.y * 1000, n), z: stdiv(d.z * 1000, n) }
    }
}

/// A vector is unit-bounded when each component fits the unit scale.
pub open spec fn unit_bounded(v: V3) -> bool {
    -1000 <= v.x <= 1000 && -1000 <= v.y <= 1000 && -1000 <= v.z <= 1000
}

proof fn lemma_stdiv_scale_bound(c: int, bound: int, n: int)
    requires
        n >= 1,
        0 <= bound,
        -n <= c <= n,
    ensures
        -1000 <= stdiv(c * 1000, n) <= 1000,
{
    if c >= 0 {
        lemma_mul_inequality(c, n, 1000);
        lemma_div_is_ordered(c * 1000, n * 1000, n);
        lemma_div_by_multiple(1000, n);
        lemma_mul_nonnegative(c, 1000);
        assert(c * 1000 / n >= 0) by (nonlinear_arith)
            requires
                c * 1000 >= 0,
                n >= 1,
        ;
    } else {
        lemma_mul_inequality(0 - c, n, 1000);
        lemma_div_is_ordered((0 - c) * 1000, n * 1000, n);
        lemma_div_by_multiple(1000, n);
        lemma_mul_nonnegative(0 - c, 1000);
        assert((0 - c) * 1000 / n >= 0) by (nonlinear_arith)
            requires
                (0 - c) * 1000 >= 0,
                n >= 1,
        ;
        assert((0 - c) * 1000 == 0 - c * 1000) by (nonlinear_arith);
    }
}

/// The unit direction is unit-bounded.
pub proof fn lemma_unit_dir_bounded(d: V3)
    ensures
        unit_bounded(unit_dir(d)),
{
    if d != v3_zero() {
        assert(norm2(d) >= 1) by (nonlinear_arith)
            requires
                d.x != 0 || d.y != 0 || d.z != 0,
        ;
        lemma_sqrt_exists(norm2(d));
        let n = sqrt_val(norm2(d));
        assert(n >= 1) by (nonlinear_arith)
            requires
                is_sqrt(norm2(d), n),
                norm2(d) >= 1,
        ;
        assert(d.x * d.x <= norm2(d)) by (nonlinear_arith);
        assert(d.y * d.y <= norm2(d)) by (nonlinear_arith);
        assert(d.z * d.z <= norm2(d)) by (nonlinear_arith);
        assert(-n <= d.x <= n) by (nonlinear_arith)
            requires
                d.x * d.x <= norm2(d),
                is_sqrt(norm2(d), n),
                n >= 0,
        ;
        assert(-n <= d.y <= n) by (nonlinear_arith)
            requires
                d.y * d.y <= norm2(d),
                is_sqrt(norm2(d), n),
                n >= 0,
        ;
        assert(-n <= d.z <= n) by (nonlinear_arith)
            requires
                d.z * d.z <= norm2(d),
                is_sqrt(norm2(d), n),
                n >= 0,
        ;
        lemma_stdiv_scale_bound(d.x, n, n);
        lemma_stdiv_scale_bound(d.y, n, n);
        lemma_stdiv_scale_bound(d.z, n, n);
    }
}

/// The gain of the position drive: commanded speed per unit of distance
/// from the slot, per second.
pub const DRIVE_GAIN: i64 = 10;

/// The largest speed a driven item is commanded to, in thousandths of a
/// unit per second.
pub const MAX_ITEM_SPEED: u64 = 90_000;

/// The velocity command that drives an item from `cur` toward `target`:
/// proportional to the distance with the drive gain, clamped to the item
/// speed limit along the same direction.
pub open spec fn drive_spec(cur: V3, target: V3) -> V3 {
    let d = V3 { x: target.x - cur.x, y: target.y - cur.y, z: target.z - cur.z };
    if norm2(d) <= 81_000_000 {
        V3 { x: d.x * DRIVE_GAIN, y: d.y * DRIVE_GAIN, z: d.z * DRIVE_GAIN }
    } else {
        let n = sqrt_val(norm2(d));
        V3 {
            x: stdiv(d.x * MAX_ITEM_SPEED, n),
            y: stdiv(d.y * MAX_ITEM_SPEED, n),
            z: stdiv(d.z * MAX_ITEM_SPEED, n),
        }
    }
}

/// Signed division by a positive divisor, rounded toward zero.
fn signed_div(c: i64, n: u64) -> (r: i64)
    requires
        n >= 1,
        c > i64::MIN,
    ensures
        r as int == stdiv(c as int, n as int),
{
    if c >= 0 {
        ((c as u64) / n) as i64
    } else {
        -((((-c) as u64) / n) as i64)
    }
}

/// One position-drive step of the collector: the velocity to hand to the
/// physics engine for a held item sitting at `current` whose formation slot
/// is at `target`.
pub fn drive_velocity(current: Vec3M, target: Vec3M) -> (v: Vec3M)
    requires
        in_box(current@, MAX_NODE_COORD as int),
        in_box(target@, MAX_NODE_COORD as int),
    ensures
        v@ == drive_spec(current@, target@),
{
    let dx = target.x - current.x;
    let dy = target.y - current.y;
    let dz = target.z - current.z;
    let ghost d = V3 { x: dx as int, y: dy as int, z: dz as int };
    proof {
        assert(d.x * d.x <= 4_840_000_000_000_000_000 && d.y * d.y <= 4_840_000_000_000_000_000
            && d.z * d.z <= 4_840_000_000_000_000_000 && d.x * d.x >= 0 && d.y * d.y >= 0 && d.z
            * d.z >= 0) by (nonlinear_arith)
            requires
                -2_200_000_000 <= d.x <= 2_200_000_000,
                -2_200_000_000 <= d.y <= 2_200_000_000,
                -2_200_000_000 <= d.z <= 2_200_000_000,
        ;
    }
    let n2_wide: i128 = (dx as i128) * (dx as i128) + (dy as i128) * (dy as i128) + (dz as i128)
        * (dz as i128);
    let n2: u64 = n2_wide as u64;
    if n2 <= 81_000_000 {
        Vec3M { x: dx * DRIVE_GAIN, y: dy * DRIVE_GAIN, z: dz * DRIVE_GAIN }
    } else {
        let n = isqrt(n2);
        proof {
            lemma_sqrt_exists(norm2(d));
            assert(n >= 1) by (nonlinear_arith)
                requires
                    is_sqrt(norm2(d), n as int),
                    norm2(d) > 81_000_000,
            ;
            assert(dx as int * MAX_ITEM_SPEED as int == (dx * MAX_ITEM_SPEED as i64) as int
                && dy as int * MAX_ITEM_SPEED as int == (dy * MAX_ITEM_SPEED as i64) as int
                && dz as int * MAX_ITEM_SPEED as int == (dz * MAX_ITEM_SPEED as i64) as int)
                by (nonlinear_arith)
                requires
                    -2_200_000_000 <= dx as int <= 2_200_000_000,
                    -2_200_000_000 <= dy as int <= 2_200_000_000,
                    -2_200_000_000 <= dz as int <= 2_200_000_000,
            ;
        }
        Vec3M {
            x: signed_div(dx * (MAX_ITEM_SPEED as i64), n),
            y: signed_div(dy * (MAX_ITEM_SPEED as i64), n),
            z: signed_div(dz * (MAX_ITEM_SPEED as i64), n),
        }
    }
}

/// One anchored point of the chain: where it sits and which way it faces.
#[derive(Debug, Clone, Copy, PartialEq, Eq, Structural)]
pub struct SpineNode {
    /// World position, in thousandths of a unit.
    pub position: Vec3M,
    /// Facing direction: a unit vector scaled by a thousand.
    pub direction: Vec3M,
}

/// The mathematical value of a chain node.
#[verifier::ext_equal]
pub ghost struct NodeV {
    pub position: V3,
    pub direction: V3,
}

impl View for SpineNode {
    type V = NodeV;

    open spec fn view(&self) -> NodeV {
        NodeV { position: self.position@, direction: self.direction@ }
    }
}

/// Every coordinate of `p` lies within `b` of the origin.
pub open spec fn in_box(p: V3, b: int) -> bool {
    -b <= p.x <= b && -b <= p.y <= b && -b <= p.z <= b
}

/// The mathematical content of a chain.
#[verifier::ext_equal]
pub ghost struct ChainView {
    pub nodes: Seq<NodeV>,
    pub point_radius: int,
    pub min_y: int,
}

/// One follow step: the node is pulled to exactly `point_radius` from its
/// (already settled) predecessor, along the unit direction that joined them,
/// then lifted to the floor height if it fell below it.
pub open spec fn follow_step(prev: NodeV, cur_pos: V3, point_radius: int, min_y: int) -> NodeV {
    let d = V3 {
        x: cur_pos.x - prev.position.x,
        y: cur_pos.y - prev.position.y,
        z: cur_pos.z - prev.position.z,
    };
    let u = unit_dir(d);
    let px = prev.position.x + stdiv(u.x * point_radius, 1000);
    let py = prev.position.y + stdiv(u.y * point_radius, 1000);
    let pz = prev.position.z + stdiv(u.z * point_radius, 1000);
    NodeV {
        position: V3 {
            x: px,
            y: if py < min_y {
                min_y
            } else {
                py
            },
            z: pz,
        },
        direction: u,
    }
}

/// Node `i` after one whole update pass over a chain whose nodes started as
/// `nodes0`: node zero stays, each later node follows its settled
/// predecessor.
pub open spec fn chain_node(nodes0: Seq<NodeV>, point_radius: int, min_y: int, i: nat) -> NodeV
    decreases i,
{
    if i == 0 {
        nodes0[0]
    } else {
        follow_step(
            chain_node(nodes0, point_radius, min_y, (i - 1) as nat),
            nodes0[i as int].position,
            point_radius,
            min_y,
        )
    }
}

/// The trailing chain of anchored points.
pub struct Chain {
    nodes: Vec<SpineNode>,
    point_radius: u64,
    min_y: i64,
}

impl View for Chain {
    type V = ChainView;

    closed spec fn view(&self) -> ChainView {
        ChainView {
            nodes: self.nodes@.map_values(|n: SpineNode| n@),
            point_radius: self.point_radius as int,
            min_y: self.min_y as int,
        }
    }
}

/// Division by the unit scale, rounded toward zero, stays within the scaled
/// bound.
proof fn lemma_stdiv_unit_bound(c: int, m: int)
    requires
        0 <= m,
        -1000 * m <= c <= 1000 * m,
    ensures
        -m <= stdiv(c, 1000) <= m,
{
    lemma_div_by_multiple(m, 1000);
    assert(m * 1000 == 1000 * m) by (nonlinear_arith);
    if c >= 0 {
        lemma_div_is_ordered(c, 1000 * m, 1000);
        assert(c / 1000 >= 0) by (nonlinear_arith)
            requires
                c >= 0,
        ;
    } else {
        lemma_div_is_ordered(0 - c, 1000 * m, 1000);
        assert((0 - c) / 1000 >= 0) by (nonlinear_arith)
            requires
                0 - c >= 0,
        ;
    }
}

/// The signed scaled division of a bounded dividend, executably.
fn scaled_div_exec(c: i64, n: u64) -> (r: i64)
    requires
        n >= 1,
        -3_000_000_000 <= c <= 3_000_000_000,
    ensures
        r as int == stdiv(c * 1000, n as int),
{
    if c >= 0 {
        let q = (c as u64) * 1000 / n;
        q as i64
    } else {
        let q = ((-c) as u64) * 1000 / n;
        proof {
            assert((0 - c as int) * 1000 == 0 - c as int * 1000) by (nonlinear_arith);
        }
        -(q as i64)
    }
}

/// One step along a unit direction component: at most the step length in
/// either direction.
fn step_component(u: i64, point_radius: u64) -> (r: i64)
    requires
        -1000 <= u <= 1000,
        point_radius <= MAX_POINT_RADIUS,
    ensures
        r as int == stdiv(u * point_radius, 1000),
        -(point_radius as int) <= r <= point_radius as int,
{
    proof {
        assert(-1000 * point_radius as int <= u as int * point_radius as int <= 1000
            * point_radius as int) by (nonlinear_arith)
            requires
                -1000 <= u as int <= 1000,
                point_radius as int >= 0,
        ;
        lemma_stdiv_unit_bound(u as int * point_radius as int, point_radius as int);
        assert((0 - u as int) * point_radius as int <= 1_000_000_000 && (u as int)
            * point_radius as int <= 1_000_000_000) by (nonlinear_arith)
            requires
                -1000 <= u as int <= 1000,
                0 <= point_radius as int <= 1_000_000,
        ;
    }
    if u >= 0 {
        let q = (u as u64) * point_radius / 1000;
        q as i64
    } else {
        let q = ((-u) as u64) * point_radius / 1000;
        proof {
            assert((0 - u as int) * point_radius as int == 0 - u as int * point_radius as int)
                by (nonlinear_arith);
        }
        -(q as i64)
    }
}

/// The chain invariant: bounded parameters, every node inside the world
/// box with a unit-bounded direction, and the head inside the anchor box.
pub open spec fn chain_wf(v: ChainView) -> bool {
    &&& 0 <= v.point_radius <= MAX_POINT_RADIUS
    &&& -MAX_COORD <= v.min_y <= MAX_COORD
    &&& v.nodes.len() <= MAX_NODES
    &&& forall|i: int|
        0 <= i < v.nodes.len() ==> in_box(
            (#[trigger] v.nodes[i]).position,
            MAX_NODE_COORD as int,
        ) && unit_bounded(v.nodes[i].direction)
    &&& v.nodes.len() > 0 ==> in_box(v.nodes[0].position, MAX_COORD as int)
}

impl Chain {
    /// The chain invariant.
    pub open spec fn wf(&self) -> bool {
        chain_wf(self@)
    }

    /// A fresh chain of `count` nodes, laid out one unit apart along the
    /// z axis from `base`, all facing along z.
    pub fn new(count: usize, base: Vec3M, point_radius: u64, min_y: i64) -> (r: Self)
        requires
            count <= MAX_NODES,
            point_radius <= MAX_POINT_RADIUS,
            -MAX_COORD <= min_y <= MAX_COORD,
            in_box(base@, MAX_COORD as int - 1000 * MAX_NODES as int),
        ensures
            r.wf(),
            r@.point_radius == point_radius,
            r@.min_y == min_y,
            r@.nodes.len() == count,
            forall|i: int|
                0 <= i < count ==> #[trigger] r@.nodes[i] == (NodeV {
                    position: V3 { x: base@.x, y: base@.y, z: base@.z + i * 1000 },
                    direction: V3 { x: 0, y: 0, z: 1000 },
                }),
    {
        let mut nodes: Vec<SpineNode> = Vec::new();
        let mut i: usize = 0;
        while i < count
            invariant
                i <= count,
                count <= MAX_NODES,
                in_box(base@, MAX_COORD as int - 1000 * MAX_NODES as int),
                nodes@.len() == i,
                forall|j: int|
                    0 <= j < i ==> #[trigger] nodes@[j]@ == (NodeV {
                        position: V3 { x: base@.x, y: base@.y, z: base@.z + j * 1000 },
                        direction: V3 { x: 0, y: 0, z: 1000 },
                    }),
            decreases count - i,
        {
            proof {
                lemma_mul_inequality(i as int, MAX_NODES as int, 1000);
                lemma_mul_nonnegative(i as int, 1000);
                assert(i as int * 1000 == 1000 * i as int) by (nonlinear_arith);
            }
            nodes.push(
                SpineNode {
                    position: Vec3M { x: base.x, y: base.y, z: base.z + (i as i64) * 1000 },
                    direction: Vec3M { x: 0, y: 0, z: 1000 },
                },
            );
            i += 1;
        }
        Chain { nodes, point_radius, min_y }
    }

    /// The number of chain nodes.
    pub fn len(&self) -> (r: usize)
        ensures
            r == self@.nodes.len(),
    {
        self.nodes.len()
    }

    /// Whether the chain has no nodes.
    pub fn is_empty(&self) -> (r: bool)
        ensures
            r <==> self@.nodes.len() == 0,
    {
        self.nodes.len() == 0
    }

    /// The node spacing.
    pub fn point_radius(&self) -> (r: u64)
        ensures
            r == self@.point_radius,
    {
        self.point_radius
    }

    /// The chain node at `i`.
    pub fn node(&self, i: usize) -> (r: SpineNode)
        requires
            i < self@.nodes.len(),
        ensures
            r@ == self@.nodes[i as int],
    {
        self.nodes[i]
    }

    /// Snaps the head node to the owner: the per-tick anchoring step.
    pub fn anchor(&mut self, position: Vec3M, direction: Vec3M)
        requires
            old(self).wf(),
            old(self)@.nodes.len() > 0,
            in_box(position@, MAX_COORD as int),
            unit_bounded(direction@),
        ensures
            final(self).wf(),
            final(self)@.point_radius == old(self)@.point_radius,
            final(self)@.min_y == old(self)@.min_y,
            final(self)@.nodes == old(self)@.nodes.update(
                0,
                (NodeV { position: position@, direction: direction@ }),
            ),
    {
        self.nodes.set(0, SpineNode { position, direction });
        proof {
            assert(self@.nodes =~= old(self)@.nodes.update(
                0,
                (NodeV { position: position@, direction: direction@ }),
            ));
        }
    }

    /// One full follow pass: each node after the head is pulled to the node
    /// spacing from its settled predecessor along the direction joining
    /// them, takes that direction as its own, and is kept above the floor
    /// height.
    pub fn update(&mut self)
        requires
            old(self).wf(),
        ensures
            final(self).wf(),
            final(self)@.point_radius == old(self)@.point_radius,
            final(self)@.min_y == old(self)@.min_y,
            final(self)@.nodes.len() == old(self)@.nodes.len(),
            forall|i: int|
                0 <= i < old(self)@.nodes.len() ==> #[trigger] final(self)@.nodes[i] == chain_node(
                    old(self)@.nodes,
                    old(self)@.point_radius,
                    old(self)@.min_y,
                    i as nat,
                ),
    {
        let n = self.nodes.len();
        if n <= 1 {
            return ;
        }
        let ghost nodes0 = self@.nodes;
        let ghost pr = self@.point_radius;
        let ghost my = self@.min_y;
        let mut i: usize = 1;
        while i < n
            invariant
                1 <= i <= n,
                n == nodes0.len(),
                self@.nodes.len() == n,
                n <= MAX_NODES,
                nodes0 == old(self)@.nodes,
                old(self).wf(),
                self@.point_radius == pr,
                self@.min_y == my,
                pr == old(self)@.point_radius,
                my == old(self)@.min_y,
                0 <= pr <= MAX_POINT_RADIUS,
                -MAX_COORD <= my <= MAX_COORD,
                forall|j: int| i <= j < n ==> #[trigger] self@.nodes[j] == nodes0[j],
                forall|j: int|
                    0 <= j < i ==> #[trigger] self@.nodes[j] == chain_node(nodes0, pr, my, j as nat),
                forall|j: int|
                    0 <= j < i ==> in_box(
                        (#[trigger] self@.nodes[j]).position,
                        MAX_COORD + j * (MAX_POINT_RADIUS as int),
                    ) && unit_bounded(self@.nodes[j].direction),
            decreases n - i,
        {
            proof {
                assert(in_box(
                    self@.nodes[i - 1].position,
                    MAX_COORD + (i - 1) * (MAX_POINT_RADIUS as int),
                ));
                assert(self@.nodes[i as int] == nodes0[i as int]);
                assert(in_box(nodes0[i as int].position, MAX_NODE_COORD as int));
            }
            let prev = self.nodes[i - 1];
            let cur = self.nodes[i];
            let dx = cur.position.x - prev.position.x;
            let dy = cur.position.y - prev.position.y;
            let dz = cur.position.z - prev.position.z;
            let ghost d = V3 { x: dx as int, y: dy as int, z: dz as int };
            let ux: i64;
            let uy: i64;
            let uz: i64;
            if dx == 0 && dy == 0 && dz == 0 {
                ux = 0;
                uy = 0;
                uz = 1000;
                proof {
                    assert(d =~= v3_zero());
                }
            } else {
                proof {
                    assert(d.x * d.x <= 4_840_000_000_000_000_000 && d.y * d.y
                        <= 4_840_000_000_000_000_000 && d.z * d.z <= 4_840_000_000_000_000_000
                        && d.x * d.x >= 0 && d.y * d.y >= 0 && d.z * d.z >= 0)
                        by (nonlinear_arith)
                        requires
                            -2_200_000_000 <= d.x <= 2_200_000_000,
                            -2_200_000_000 <= d.y <= 2_200_000_000,
                            -2_200_000_000 <= d.z <= 2_200_000_000,
                    ;
                    assert(norm2(d) >= 1) by (nonlinear_arith)
                        requires
                            d.x != 0 || d.y != 0 || d.z != 0,
                    ;
                }
                let n2_wide: i128 = (dx as i128) * (dx as i128) + (dy as i128) * (dy as i128) + (
                dz as i128) * (dz as i128);
                let n2: u64 = n2_wide as u64;
                let root = isqrt(n2);
                proof {
                    lemma_sqrt_exists(norm2(d));
                    assert(root >= 1) by (nonlinear_arith)
                        requires
                            is_sqrt(norm2(d), root as int),
                            norm2(d) >= 1,
                    ;
                }
                ux = scaled_div_exec(dx, root);
                uy = scaled_div_exec(dy, root);
                uz = scaled_div_exec(dz, root);
                proof {
                    lemma_sqrt_unique(norm2(d), root as int, sqrt_val(norm2(d)));
                    assert(unit_dir(d) == (V3 {
                        x: stdiv(d.x * 1000, root as int),
                        y: stdiv(d.y * 1000, root as int),
                        z: stdiv(d.z * 1000, root as int),
                    }));
                }
            }
            proof {
                lemma_unit_dir_bounded(d);
                assert(ux as int == unit_dir(d).x);
                assert(uy as int == unit_dir(d).y);
                assert(uz as int == unit_dir(d).z);
            }
            let sx = step_component(ux, self.point_radius);
            let sy = step_component(uy, self.point_radius);
            let sz = step_component(uz, self.point_radius);
            let px = prev.position.x + sx;
            let py0 = prev.position.y + sy;
            let pz = prev.position.z + sz;
            let py = if py0 < self.min_y {
                self.min_y
            } else {
                py0
            };
            let ghost pre = self@.nodes;
            self.nodes.set(
                i,
                SpineNode {
                    position: Vec3M { x: px, y: py, z: pz },
                    direction: Vec3M { x: ux, y: uy, z: uz },
                },
            );
            proof {
                assert forall|j: int| 0 <= j < n && j != i as int implies #[trigger] self@.nodes[j]
                    == pre[j] by {
                    assert(self.nodes@[j]@ == pre[j]);
                }
                assert(self@.nodes[i as int] == (NodeV {
                    position: V3 { x: px as int, y: py as int, z: pz as int },
                    direction: V3 { x: ux as int, y: uy as int, z: uz as int },
                }));
                assert(self@.nodes[i as int] =~= chain_node(nodes0, pr, my, i as nat));
            }
            i += 1;
        }
    }
}

/// The product of two bounded factors divided by the unit scale, rounded
/// toward zero.
fn mul_div_unit(a: i64, b: i64) -> (r: i64)
    requires
        -1000 <= a <= 1000,
        -1_000_000 <= b <= 1_000_000,
    ensures
        r as int == stdiv(a * b, 1000),
        -1_000_000 <= r <= 1_000_000,
{
    proof {
        assert(-1_000_000_000 <= a as int * b as int <= 1_000_000_000 && ((a as int >= 0 && b as int
            >= 0) || (a as int <= 0 && b as int <= 0) ==> a as int * b as int >= 0) && ((a as int
            >= 0 && b as int <= 0) || (a as int <= 0 && b as int >= 0) ==> a as int * b as int
            <= 0)) by (nonlinear_arith)
            requires
                -1000 <= a as int <= 1000,
                -1_000_000 <= b as int <= 1_000_000,
        ;
        lemma_stdiv_unit_bound(a as int * b as int, 1_000_000);
    }
    let am: u64 = if a >= 0 {
        a as u64
    } else {
        (-a) as u64
    };
    let bm: u64 = if b >= 0 {
        b as u64
    } else {
        (-b) as u64
    };
    proof {
        assert(am as int * bm as int <= 1_000_000_000) by (nonlinear_arith)
            requires
                0 <= am as int <= 1000,
                0 <= bm as int <= 1_000_000,
        ;
    }
    let q = am * bm / 1000;
    if (a >= 0) == (b >= 0) {
        proof {
            assert(a as int * b as int == am as int * bm as int) by (nonlinear_arith)
                requires
                    am == (if a as int >= 0 { a as int } else { 0 - a as int }),
                    bm == (if b as int >= 0 { b as int } else { 0 - b as int }),
                    (a as int >= 0) == (b as int >= 0),
            ;
        }
        q as i64
    } else {
        proof {
            assert(a as int * b as int == 0 - am as int * bm as int) by (nonlinear_arith)
                requires
                    am == (if a as int >= 0 { a as int } else { 0 - a as int }),
                    bm == (if b as int >= 0 { b as int } else { 0 - b as int }),
                    (a as int >= 0) != (b as int >= 0),
            ;
        }
        -(q as i64)
    }
}

/// How many chain nodes a slot mapping fills: enough whole groups of one
/// slot set each to cover `count` positions, but never more than the chain
/// has.
pub open spec fn frame_nodes(count: int, per_node: int, chain: int) -> int {
    if per_node <= 0 {
        0
    } else {
        let need = (count + per_node - 1) / per_node;
        if need <= chain {
            need
        } else {
            chain
        }
    }
}

/// A spine-driven body: a dorsal chain anchored a fixed offset ahead of the
/// owner, onto which a flat formation is remapped node by node.
pub struct GarbageBody {
    dorsal: Chain,
    offset: i64,
}

/// The mathematical content of a body: its chain and its anchor offset.
#[verifier::ext_equal]
pub ghost struct BodyView {
    pub dorsal: ChainView,
    pub offset: int,
}

impl View for GarbageBody {
    type V = BodyView;

    closed spec fn view(&self) -> BodyView {
        BodyView { dorsal: self.dorsal@, offset: self.offset as int }
    }
}

impl GarbageBody {
    /// The body invariant: a well-formed chain and a bounded anchor offset.
    pub open spec fn wf(&self) -> bool {
        &&& chain_wf(self@.dorsal)
        &&& -1_000_000 <= self@.offset <= 1_000_000
    }

    /// A fresh body of `amount` chain nodes starting at `pos`, spaced
    /// `radius` apart, floored one unit above the ground, anchored `offset`
    /// ahead of the owner.
    pub fn new(amount: usize, pos: Vec3M, radius: u64, offset: i64) -> (r: Self)
        requires
            amount <= MAX_NODES,
            radius <= MAX_POINT_RADIUS,
            in_box(pos@, MAX_COORD as int - 1000 * MAX_NODES as int),
            -1_000_000 <= offset <= 1_000_000,
        ensures
            r.wf(),
            r@.dorsal.nodes.len() == amount,
            r@.dorsal.point_radius == radius,
            r@.dorsal.min_y == 1000,
            r@.offset == offset,
            forall|i: int|
                0 <= i < amount ==> #[trigger] r@.dorsal.nodes[i] == (NodeV {
                    position: V3 { x: pos@.x, y: pos@.y, z: pos@.z + i * 1000 },
                    direction: V3 { x: 0, y: 0, z: 1000 },
                }),
    {
        GarbageBody { dorsal: Chain::new(amount, pos, radius, 1000), offset }
    }

    /// The chain length.
    pub fn len(&self) -> (r: usize)
        ensures
            r == self@.dorsal.nodes.len(),
    {
        self.dorsal.len()
    }

    /// The full body length: node count times node spacing.
    pub fn full_length(&self) -> (r: u64)
        requires
            self.wf(),
        ensures
            r == self@.dorsal.nodes.len() * self@.dorsal.point_radius,
    {
        proof {
            lemma_mul_upper_bound(
                self@.dorsal.nodes.len() as int,
                MAX_NODES as int,
                self@.dorsal.point_radius,
                MAX_POINT_RADIUS as int,
            );
            lemma_mul_nonnegative(self@.dorsal.nodes.len() as int, self@.dorsal.point_radius);
        }
        (self.dorsal.len() as u64) * self.dorsal.point_radius()
    }

    /// The chain node at `i`.
    pub fn node(&self, i: usize) -> (r: SpineNode)
        requires
            i < self@.dorsal.nodes.len(),
        ensures
            r@ == self@.dorsal.nodes[i as int],
    {
        self.dorsal.node(i)
    }

    /// The per-tick follow step: the head node snaps to the owner's
    /// position pushed `offset` along the owner's forward direction, and the
    /// rest of the chain is pulled after it.
    pub fn follow_owner(&mut self, position: Vec3M, forward: Vec3M)
        requires
            old(self).wf(),
            old(self)@.dorsal.nodes.len() > 0,
            in_box(position@, MAX_COORD as int - 1_000_000),
            unit_bounded(forward@),
        ensures
            final(self).wf(),
            final(self)@.offset == old(self)@.offset,
            final(self)@.dorsal.point_radius == old(self)@.dorsal.point_radius,
            final(self)@.dorsal.min_y == old(self)@.dorsal.min_y,
            final(self)@.dorsal.nodes.len() == old(self)@.dorsal.nodes.len(),
            forall|i: int|
                0 <= i < old(self)@.dorsal.nodes.len() ==> #[trigger] final(self)@.dorsal.nodes[i]
                    == chain_node(
                    old(self)@.dorsal.nodes.update(
                        0,
                        (NodeV {
                            position: V3 {
                                x: position@.x + stdiv(forward@.x * old(self)@.offset, 1000),
                                y: position@.y + stdiv(forward@.y * old(self)@.offset, 1000),
                                z: position@.z + stdiv(forward@.z * old(self)@.offset, 1000),
                            },
                            direction: forward@,
                        }),
                    ),
                    old(self)@.dorsal.point_radius,
                    old(self)@.dorsal.min_y,
                    i as nat,
                ),
    {
        let hx = position.x + mul_div_unit(forward.x, self.offset);
        let hy = position.y + mul_div_unit(forward.y, self.offset);
        let hz = position.z + mul_div_unit(forward.z, self.offset);
        self.dorsal.anchor(Vec3M { x: hx, y: hy, z: hz }, forward);
        self.dorsal.update();
    }

    /// Maps a flat slot set onto the chain: walks the chain nodes from the
    /// head, attaching the whole slot set to each node, until at least
    /// `count` frames exist or the chain is exhausted. Each frame pairs the
    /// node it hangs from with the flat slot offset to apply in that node's
    /// local frame.
    pub fn compute_slot_frames(&self, count: usize, distribution: &PointDistribution) -> (r: Vec<
        (SpineNode, PolarPoint),
    >)
        requires
            self.wf(),
            distribution.wf(),
            count > 0 ==> distribution@.points.len() > 0,
            count <= MAX_COUNT,
        ensures
            r@.len() == frame_nodes(
                count as int,
                distribution@.points.len() as int,
                self@.dorsal.nodes.len() as int,
            ) * distribution@.points.len(),
            forall|k: int|
                0 <= k < r@.len() ==> (#[trigger] r@[k]).0@ == self@.dorsal.nodes[k
                    / distribution@.points.len() as int] && r@[k].1 == distribution@.points[k
                    % distribution@.points.len() as int],
    {
        let ppl = distribution.len();
        let chain = self.dorsal.len();
        let mut res: Vec<(SpineNode, PolarPoint)> = Vec::new();
        if count == 0 || ppl == 0 {
            proof {
                if ppl > 0 {
                    vstd::arithmetic::div_mod::lemma_basic_div(
                        count as int + ppl as int - 1,
                        ppl as int,
                    );
                }
                assert(frame_nodes(count as int, ppl as int, chain as int) == 0);
            }
            return res;
        }
        let mut i: usize = 0;
        let mut j: usize = 0;
        while i < count && j < chain
            invariant
                0 < ppl <= MAX_COUNT,
                0 < count <= MAX_COUNT,
                ppl == distribution@.points.len(),
                chain == self@.dorsal.nodes.len(),
                chain <= MAX_NODES,
                self.wf(),
                distribution.wf(),
                i == j * ppl,
                j <= chain,
                res@.len() == i,
                j == 0 || (j - 1) * ppl < count,
                forall|k: int|
                    0 <= k < res@.len() ==> (#[trigger] res@[k]).0@ == self@.dorsal.nodes[k
                        / ppl as int] && res@[k].1 == distribution@.points[k % ppl as int],
            decreases chain - j,
        {
            let node = self.dorsal.node(j);
            let mut p: usize = 0;
            while p < ppl
                invariant
                    0 < ppl <= MAX_COUNT,
                    p <= ppl,
                    j < chain,
                    chain == self@.dorsal.nodes.len(),
                    ppl == distribution@.points.len(),
                    self.wf(),
                    distribution.wf(),
                    node@ == self@.dorsal.nodes[j as int],
                    i == j * ppl,
                    i + ppl <= 2 * MAX_COUNT,
                    res@.len() == i + p,
                    forall|k: int|
                        0 <= k < res@.len() ==> (#[trigger] res@[k]).0@ == self@.dorsal.nodes[k
                            / ppl as int] && res@[k].1 == distribution@.points[k % ppl as int],
                decreases ppl - p,
            {
                let pts = distribution.points();
                let pt = pts[p];
                res.push((node, pt));
                proof {
                    let k = i + p;
                    lemma_fundamental_div_mod_converse(k as int, ppl as int, j as int, p as int);
                }
                p += 1;
            }
            proof {
                lemma_mul_inequality(j as int + 1, MAX_NODES as int, ppl as int);
                assert((j + 1) * ppl == j * ppl + ppl) by (nonlinear_arith);
            }
            i = i + ppl;
            j = j + 1;
        }
        proof {
            let cnt = count as int;
            let pp = ppl as int;
            let need = (cnt + pp - 1) / pp;
            vstd::arithmetic::div_mod::lemma_fundamental_div_mod(cnt + pp - 1, pp);
            if i >= count {
                assert(j as int * pp >= cnt);
                assert(0 <= cnt + pp - 1 - j as int * pp < pp) by (nonlinear_arith)
                    requires
                        j as int * pp >= cnt,
                        j == 0 || (j as int - 1) * pp < cnt,
                        pp >= 1,
                        cnt >= 1,
                ;
                assert(cnt + pp - 1 == pp * (j as int) + (cnt + pp - 1 - j as int * pp))
                    by (nonlinear_arith);
                lemma_fundamental_div_mod_converse(
                    cnt + pp - 1,
                    pp,
                    j as int,
                    cnt + pp - 1 - j as int * pp,
                );
                assert(need == j as int);
                assert(frame_nodes(cnt, pp, chain as int) == j as int);
            } else {
                assert(j == chain);
                assert(chain == 0 || (chain as int - 1) * pp < cnt);
                assert(chain as int * pp <= cnt + pp - 1) by (nonlinear_arith)
                    requires
                        chain == 0 || (chain as int - 1) * pp < cnt,
                        pp >= 1,
                        cnt >= 1,
                ;
                assert(need >= chain as int) by {
                    lemma_div_is_ordered(chain as int * pp, cnt + pp - 1, pp);
                    lemma_div_by_multiple(chain as int, pp);
                }
                assert(frame_nodes(cnt, pp, chain as int) == chain as int);
            }
            assert(res@.len() == frame_nodes(cnt, pp, chain as int) * pp) by (nonlinear_arith)
                requires
                    res@.len() == i,
                    i == j * ppl,
                    frame_nodes(cnt, pp, chain as int) == j as int,
                    pp == ppl as int,
            ;
        }
        res
    }
}

} // verus!
