//! Fixed-point plane angles.
//!
//! An angle is stored in thousandths of a degree, so a full turn is
//! `360_000` and angles live in `[0, FULL_TURN)`. The circular distance
//! between two angles is the shorter way around the circle.

use vstd::prelude::*;
use vstd::arithmetic::div_mod::*;

verus! {

/// A full turn, in thousandths of a degree.
pub const FULL_TURN: u32 = 360_000;

/// Half a turn, in thousandths of a degree.
pub const HALF_TURN: u32 = 180_000;

/// An angle is in canonical form when it lies in `[0, FULL_TURN)`.
pub open spec fn angle_ok(a: int) -> bool {
    0 <= a < FULL_TURN
}

/// The canonical form of an arbitrary (possibly negative) angle.
pub open spec fn norm_angle(a: int) -> int {
    a % (FULL_TURN as int)
}

/// The circular distance between two canonical angles: the shorter of the
/// two arcs that join them.
pub open spec fn circ_dist(a: int, b: int) -> int {
    let d = if a >= b { a - b } else { b - a };
    if d + d <= FULL_TURN {
        d
    } else {
        FULL_TURN - d
    }
}

pub proof fn lemma_norm_angle_ok(a: int)
    ensures
        angle_ok(norm_angle(a)),
{
    lemma_mod_bound(a, FULL_TURN as int);
}

pub proof fn lemma_norm_small(a: int)
    requires
        angle_ok(a),
    ensures
        norm_angle(a) == a,
{
    lemma_small_mod(a as nat, FULL_TURN as nat);
}

/// Adding a whole number of turns does not change the canonical form.
pub proof fn lemma_norm_shift_turn(a: int)
    ensures
        norm_angle(a + FULL_TURN) == norm_angle(a),
        norm_angle(a - FULL_TURN) == norm_angle(a),
{
    lemma_mod_add_multiples_vanish(a, FULL_TURN as int);
    lemma_mod_sub_multiples_vanish(a, FULL_TURN as int);
}

/// Normalizing one summand does not change the canonical form of a sum.
pub proof fn lemma_norm_add(a: int, b: int)
    ensures
        norm_angle(norm_angle(a) + b) == norm_angle(a + b),
{
    lemma_add_mod_noop(a, b, FULL_TURN as int);
    lemma_add_mod_noop(norm_angle(a), b, FULL_TURN as int);
    lemma_mod_twice(a, FULL_TURN as int);
}

/// The sum of two canonical angles, brought back to canonical form.
pub fn add_angle(a: u32, d: u32) -> (r: u32)
    requires
        angle_ok(a as int),
        angle_ok(d as int),
    ensures
        r == norm_angle(a + d),
{
    let s = a + d;
    if s >= FULL_TURN {
        proof {
            lemma_norm_shift_turn((s - FULL_TURN) as int);
            lemma_norm_small((s - FULL_TURN) as int);
        }
        s - FULL_TURN
    } else {
        proof {
            lemma_norm_small(s as int);
        }
        s
    }
}

/// The difference `a - b` of two canonical angles, in canonical form.
pub fn sub_angle(a: u32, b: u32) -> (r: u32)
    requires
        angle_ok(a as int),
        angle_ok(b as int),
    ensures
        r == norm_angle(a - b),
{
    if a >= b {
        proof {
            lemma_norm_small((a - b) as int);
        }
        a - b
    } else {
        proof {
            lemma_norm_shift_turn(a - b);
            lemma_norm_small(a + FULL_TURN - b);
        }
        a + FULL_TURN - b
    }
}

/// The canonical form of any `u32`, used to accept raw angle inputs.
pub fn reduce_angle(a: u32) -> (r: u32)
    ensures
        r == norm_angle(a as int),
{
    proof {
        lemma_norm_angle_ok(a as int);
        lemma_fundamental_div_mod(a as int, FULL_TURN as int);
    }
    a % FULL_TURN
}

/// The circular distance to a normalized angle, read off the normalized
/// difference: `circ_dist(q, norm_angle(p))` is the shorter of
/// `norm_angle(q - p)` and its complement to a full turn.
pub proof fn lemma_circ_dist_char(q: int, p: int)
    requires
        angle_ok(q),
    ensures
        circ_dist(q, norm_angle(p)) == ({
            let r = norm_angle(q - p);
            if r + r <= FULL_TURN {
                r
            } else {
                FULL_TURN - r
            }
        }),
{
    let t = FULL_TURN as int;
    let pn = norm_angle(p);
    let r = norm_angle(q - p);
    lemma_norm_angle_ok(p);
    lemma_norm_angle_ok(q - p);
    lemma_fundamental_div_mod(p, t);
    assert(q - pn == (q - p) + t * (p / t));
    lemma_mod_multiples_vanish(p / t, q - p, t);
    assert(norm_angle(q - pn) == r);
    if q >= pn {
        lemma_small_mod((q - pn) as nat, t as nat);
        assert(q - pn == r);
    } else {
        lemma_mod_add_multiples_vanish(q - pn, t);
        lemma_small_mod((q - pn + t) as nat, t as nat);
        assert(q - pn + t == r);
    }
}

/// Among `k` angles placed one exact step apart around the whole circle,
/// some angle lies within half a step of any target.
pub proof fn lemma_even_spacing_cover(base: int, k: int, q: int)
    requires
        1 <= k,
        FULL_TURN as int % k == 0,
        angle_ok(q),
    ensures
        exists|i: int|
            0 <= i < k && #[trigger] circ_dist(q, norm_angle(base + i * (FULL_TURN as int / k)))
                <= FULL_TURN as int / (2 * k),
{
    let t = FULL_TURN as int;
    let step = t / k;
    lemma_fundamental_div_mod(t, k);
    assert(t == k * step);
    assert(step >= 1) by (nonlinear_arith)
        requires
            t == k * step,
            k >= 1,
            t >= 1,
    ;
    assert(step <= t) by (nonlinear_arith)
        requires
            t == k * step,
            k >= 1,
            step >= 1,
    ;
    // Half a step is exactly a turn divided by twice the count.
    let m = step / 2;
    lemma_fundamental_div_mod(step, 2);
    assert(t == (2 * k) * m + k * (step % 2)) by (nonlinear_arith)
        requires
            t == k * step,
            step == 2 * m + step % 2,
    ;
    assert(0 <= k * (step % 2) < 2 * k) by (nonlinear_arith)
        requires
            k >= 1,
            0 <= step % 2 < 2,
    ;
    lemma_fundamental_div_mod_converse_div(t, 2 * k, m, k * (step % 2));
    assert(t / (2 * k) == m);

    let d = norm_angle(q - base);
    lemma_norm_angle_ok(q - base);
    lemma_fundamental_div_mod(d, step);
    let i0 = d / step;
    let r = d % step;
    lemma_mod_bound(d, step);
    lemma_div_pos_is_pos(d, step);
    assert(i0 < k) by (nonlinear_arith)
        requires
            d == step * i0 + r,
            0 <= r,
            d < t,
            t == k * step,
            step >= 1,
            i0 >= 0,
    ;
    // For any slot index, the normalized offset from the target telescopes.
    lemma_fundamental_div_mod(q - base, t);
    assert forall|i: int| 0 <= i < k implies #[trigger] norm_angle(q - (base + i * step))
        == norm_angle(d - i * step) by {
        assert(q - (base + i * step) == (d - i * step) + t * ((q - base) / t));
        lemma_mod_multiples_vanish((q - base) / t, d - i * step, t);
    }
    if r + r <= step {
        let target = norm_angle(base + i0 * step);
        lemma_circ_dist_char(q, base + i0 * step);
        assert(d - i0 * step == r);
        lemma_small_mod(r as nat, t as nat);
        assert(circ_dist(q, target) == r);
        assert(0 <= i0 < k && circ_dist(q, norm_angle(base + i0 * step)) <= t / (2 * k));
    } else {
        let i1 = if i0 + 1 < k {
            i0 + 1
        } else {
            0
        };
        lemma_circ_dist_char(q, base + i1 * step);
        if i0 + 1 < k {
            assert((i0 + 1) * step == i0 * step + step) by (nonlinear_arith);
            assert(d - i1 * step == r - step);
        } else {
            assert(i0 == k - 1);
            assert(i0 * step == k * step - step) by (nonlinear_arith)
                requires
                    i0 == k - 1,
            ;
            assert(d - i1 * step == (r - step) + t);
            lemma_mod_add_multiples_vanish(r - step, t);
        }
        assert(norm_angle(d - i1 * step) == norm_angle(r - step));
        lemma_mod_add_multiples_vanish(r - step, t);
        lemma_small_mod((r - step + t) as nat, t as nat);
        assert(norm_angle(r - step) == r - step + t);
        let rr = r - step + t;
        assert(rr + rr > FULL_TURN);
        assert(circ_dist(q, norm_angle(base + i1 * step)) == t - rr);
        assert(t - rr == step - r);
        assert(step - r <= m);
        assert(0 <= i1 < k && circ_dist(q, norm_angle(base + i1 * step)) <= t / (2 * k));
    }
}

/// The circular distance between two canonical angles.
pub fn angle_between(a: u32, b: u32) -> (r: u32)
    requires
        angle_ok(a as int),
        angle_ok(b as int),
    ensures
        r == circ_dist(a as int, b as int),
        r <= HALF_TURN,
{
    let d = if a >= b { a - b } else { b - a };
    if d <= FULL_TURN - d {
        d
    } else {
        FULL_TURN - d
    }
}

} // verus!
