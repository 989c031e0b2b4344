//! Fractal scaling directions and the scale factor between network depths.

use vstd::prelude::*;

verus! {

/// Scaling direction.
#[derive(Debug, Clone, Copy, PartialEq, Eq, Structural)]
pub enum ScaleDir {
    Up,
    Down,
    Equal,
}

/// `4^k`.
pub open spec fn pow4(k: nat) -> nat
    decreases k,
{
    if k == 0 { 1 } else { 4 * pow4((k - 1) as nat) }
}

/// `2^k`.
pub open spec fn pow2(k: nat) -> nat
    decreases k,
{
    if k == 0 { 1 } else { 2 * pow2((k - 1) as nat) }
}

/// `k` is `log2(a / b)` rounded to the nearest integer, for `a >= b > 0`:
/// `2^(k - 1/2) <= a/b < 2^(k + 1/2)`, squared to stay in the integers.
pub open spec fn is_rounded_log2_ratio(k: nat, a: nat, b: nat) -> bool {
    &&& a * a < 2 * pow4(k) * (b * b)
    &&& (k == 0 || 2 * pow4(k) * (b * b) <= 4 * (a * a))
}

/// The number of doublings between two depths: `|round(log2(to / from))|`,
/// and 0 when either depth is 0.
pub open spec fn scale_factor_spec(from_depth: nat, to_depth: nat) -> nat {
    if from_depth == 0 || to_depth == 0 {
        0
    } else {
        let a = if from_depth >= to_depth { from_depth } else { to_depth };
        let b = if from_depth >= to_depth { to_depth } else { from_depth };
        choose|k: nat| is_rounded_log2_ratio(k, a, b)
    }
}

/// `pow4` grows strictly.
pub proof fn lemma_pow4_strict(i: nat, j: nat)
    requires
        i < j,
    ensures
        pow4(i) < pow4(j),
        pow4(i) >= 1,
    decreases j,
{
    lemma_pow4_pos(i);
    if j == i + 1 {
    } else {
        lemma_pow4_strict(i, (j - 1) as nat);
    }
}

/// `pow4` is positive.
pub proof fn lemma_pow4_pos(k: nat)
    ensures
        pow4(k) >= 1,
    decreases k,
{
    if k > 0 {
        lemma_pow4_pos((k - 1) as nat);
    }
}

/// `4^(i+j) = 4^i * 4^j`.
pub proof fn lemma_pow4_add(i: nat, j: nat)
    ensures
        pow4(i + j) == pow4(i) * pow4(j),
    decreases j,
{
    if j > 0 {
        let jm = (j - 1) as nat;
        lemma_pow4_add(i, jm);
        let n = i + j;
        assert(pow4(n) == 4 * pow4((n - 1) as nat));
        assert((n - 1) as nat == i + jm);
        assert(pow4(j) == 4 * pow4(jm));
        assert(pow4(i) * pow4(j) == 4 * (pow4(i) * pow4(jm))) by (nonlinear_arith)
            requires pow4(j) == 4 * pow4(jm);
    } else {
        assert(pow4(0) == 1);
        assert(i + j == i);
    }
}

/// `4^64 = 2^128`.
proof fn lemma_pow4_64()
    ensures
        pow4(64) == 0x1_0000_0000_0000_0000_0000_0000_0000_0000,
{
    reveal_with_fuel(pow4, 9);
    assert(pow4(8) == 0x10000);
    lemma_pow4_add(8, 8);
    lemma_pow4_add(16, 16);
    lemma_pow4_add(32, 32);
    assert(pow4(16) == 0x1_0000_0000);
    assert(pow4(32) == 0x1_0000_0000_0000_0000) by (nonlinear_arith) requires pow4(32) == pow4(16) * pow4(16), pow4(16) == 0x1_0000_0000;
    assert(pow4(64) == 0x1_0000_0000_0000_0000_0000_0000_0000_0000) by (nonlinear_arith)
        requires pow4(64) == pow4(32) * pow4(32), pow4(32) == 0x1_0000_0000_0000_0000;
}

/// Of two rounded logarithms of a ratio, the first is not the smaller.
proof fn lemma_rounded_log2_not_less(k1: nat, k2: nat, a: nat, b: nat)
    requires
        b > 0,
        is_rounded_log2_ratio(k1, a, b),
        is_rounded_log2_ratio(k2, a, b),
    ensures
        k1 >= k2,
{
    if k1 >= k2 {
        return;
    }
    let bb = b * b;
    assert(bb > 0) by (nonlinear_arith) requires b > 0, bb == b * b;
    assert(pow4(k2) == 4 * pow4((k2 - 1) as nat));
    if k1 < k2 - 1 {
        lemma_pow4_strict(k1, (k2 - 1) as nat);
    }
    assert(4 * pow4(k1) <= pow4(k2));
    assert(false) by (nonlinear_arith)
        requires
            a * a < 2 * pow4(k1) * bb,
            2 * pow4(k2) * bb <= 4 * (a * a),
            4 * pow4(k1) <= pow4(k2),
            bb > 0;
}

/// At most one `k` is the rounded logarithm of a ratio.
pub proof fn lemma_rounded_log2_unique(k1: nat, k2: nat, a: nat, b: nat)
    requires
        b > 0,
        is_rounded_log2_ratio(k1, a, b),
        is_rounded_log2_ratio(k2, a, b),
    ensures
        k1 == k2,
{
    lemma_rounded_log2_not_less(k1, k2, a, b);
    lemma_rounded_log2_not_less(k2, k1, a, b);
}

/// A rounded logarithm is the value of `scale_factor_spec`.
pub proof fn lemma_scale_factor_is(k: nat, from_depth: nat, to_depth: nat)
    requires
        from_depth > 0,
        to_depth > 0,
        is_rounded_log2_ratio(k,
            if from_depth >= to_depth { from_depth } else { to_depth },
            if from_depth >= to_depth { to_depth } else { from_depth }),
    ensures
        scale_factor_spec(from_depth, to_depth) == k,
{
    let a = if from_depth >= to_depth { from_depth } else { to_depth };
    let b = if from_depth >= to_depth { to_depth } else { from_depth };
    let c = choose|k: nat| is_rounded_log2_ratio(k, a, b);
    lemma_rounded_log2_unique(c, k, a, b);
}

/// The scale factor that transforms a network of depth `from_depth` into
/// one of depth `to_depth`: the number of doublings or halvings, rounded
/// to the nearest; 0 when either depth is 0.
pub fn scale_factor(from_depth: usize, to_depth: usize) -> (k: usize)
    ensures
        k == scale_factor_spec(from_depth as nat, to_depth as nat),
{
    if from_depth == 0 || to_depth == 0 {
        return 0;
    }
    let a: u128 = if from_depth >= to_depth { from_depth as u128 } else { to_depth as u128 };
    let b: u128 = if from_depth >= to_depth { to_depth as u128 } else { from_depth as u128 };
    assert(a * a <= 0xffff_ffff_ffff_ffff * 0xffff_ffff_ffff_ffff) by (nonlinear_arith)
        requires a <= 0xffff_ffff_ffff_ffff;
    assert(b * b <= a * a) by (nonlinear_arith) requires 1 <= b <= a;
    let a2 = a * a;
    let bb = b * b;
    assert(bb >= 1) by (nonlinear_arith) requires b >= 1, bb == b * b;
    proof {
        reveal_with_fuel(pow4, 2);
    }
    if a2 / 2 < bb {
        proof {
            assert(pow4(0) == 1);
            assert(a2 < 2 * bb) by (nonlinear_arith) requires a2 / 2 < bb;
            lemma_scale_factor_is(0, from_depth as nat, to_depth as nat);
        }
        return 0;
    }
    let mut k: usize = 0;
    let mut x: u128 = bb;
    assert(pow4(0) == 1);
    loop
        invariant
            a2 == a * a,
            bb == b * b,
            bb >= 1,
            a2 <= 0xffff_ffff_ffff_ffff * 0xffff_ffff_ffff_ffff,
            x == pow4(k as nat) * bb,
            a2 >= 2 * x,
            k <= 64,
            from_depth > 0 && to_depth > 0,
            a == (if from_depth >= to_depth { from_depth as u128 } else { to_depth as u128 }),
            b == (if from_depth >= to_depth { to_depth as u128 } else { from_depth as u128 }),
        decreases a2 - x,
    {
        if a2 / 8 < x {
            proof {
                assert(pow4((k + 1) as nat) == 4 * pow4(k as nat));
                assert(a2 < 2 * pow4((k + 1) as nat) * bb) by (nonlinear_arith)
                    requires a2 / 8 < x, x == pow4(k as nat) * bb, pow4((k + 1) as nat) == 4 * pow4(k as nat);
                assert(2 * pow4((k + 1) as nat) * bb <= 4 * a2) by (nonlinear_arith)
                    requires a2 >= 2 * x, x == pow4(k as nat) * bb, pow4((k + 1) as nat) == 4 * pow4(k as nat);
                lemma_scale_factor_is((k + 1) as nat, from_depth as nat, to_depth as nat);
            }
            return k + 1;
        }
        proof {
            lemma_pow4_pos(k as nat);
            assert(x >= 1) by (nonlinear_arith) requires x == pow4(k as nat) * bb, pow4(k as nat) >= 1, bb >= 1;
            if k == 64 {
                lemma_pow4_64();
                assert(x >= 0x1_0000_0000_0000_0000_0000_0000_0000_0000) by (nonlinear_arith)
                    requires x == pow4(k as nat) * bb, bb >= 1, k == 64,
                        pow4(64) == 0x1_0000_0000_0000_0000_0000_0000_0000_0000;
                assert(false);
            }
        }
        let old_x = x;
        x = 4 * x;
        k += 1;
        proof {
            assert(pow4(k as nat) == 4 * pow4((k - 1) as nat));
            assert(x == pow4(k as nat) * bb) by (nonlinear_arith)
                requires x == 4 * old_x, old_x == pow4((k - 1) as nat) * bb, pow4(k as nat) == 4 * pow4((k - 1) as nat);
        }
    }
}

/// Scaling between two depths takes as many steps in either direction.
pub proof fn lemma_scale_factor_symmetric(from_depth: nat, to_depth: nat)
    ensures
        scale_factor_spec(from_depth, to_depth) == scale_factor_spec(to_depth, from_depth),
{
}

/// Equal depths need no scaling, and a depth `2^j` times another is `j`
/// doublings away from it.
pub proof fn lemma_scale_factor_powers(d: nat, j: nat)
    requires
        d > 0,
    ensures
        scale_factor_spec(d, d) == 0,
        scale_factor_spec(d, d * pow2(j)) == j,
{
    reveal_with_fuel(pow4, 1);
    assert(d * d < 2 * pow4(0) * (d * d)) by (nonlinear_arith) requires d > 0, pow4(0) == 1;
    lemma_scale_factor_is(0, d, d);
    lemma_pow2_squared(j);
    lemma_pow2_pos(j);
    let a = d * pow2(j);
    assert(a >= d) by (nonlinear_arith) requires a == d * pow2(j), pow2(j) >= 1, d > 0;
    assert(a * a == pow4(j) * (d * d)) by (nonlinear_arith)
        requires a == d * pow2(j), pow2(j) * pow2(j) == pow4(j);
    lemma_pow4_pos(j);
    assert(a * a < 2 * pow4(j) * (d * d)) by (nonlinear_arith)
        requires a * a == pow4(j) * (d * d), pow4(j) >= 1, d > 0;
    assert(2 * pow4(j) * (d * d) <= 4 * (a * a)) by (nonlinear_arith)
        requires a * a == pow4(j) * (d * d);
    lemma_scale_factor_is(j, d, a);
}

/// `2^j` is positive.
pub proof fn lemma_pow2_pos(j: nat)
    ensures
        pow2(j) >= 1,
    decreases j,
{
    if j > 0 {
        lemma_pow2_pos((j - 1) as nat);
    }
}

/// `(2^j)^2 = 4^j`.
pub proof fn lemma_pow2_squared(j: nat)
    ensures
        pow2(j) * pow2(j) == pow4(j),
    decreases j,
{
    if j > 0 {
        lemma_pow2_squared((j - 1) as nat);
        let p = pow2((j - 1) as nat);
        assert(pow2(j) == 2 * p);
        assert(pow4(j) == 4 * pow4((j - 1) as nat));
        assert(p * p == pow4((j - 1) as nat));
        assert(pow2(j) * pow2(j) == pow4(j)) by (nonlinear_arith)
            requires pow2(j) == 2 * p, p * p == pow4((j - 1) as nat), pow4(j) == 4 * pow4((j - 1) as nat);
    } else {
        assert(pow2(0) == 1 && pow4(0) == 1);
        assert(pow2(j) * pow2(j) == pow4(j)) by (nonlinear_arith) requires pow2(j) == 1, pow4(j) == 1;
    }
}

/// The shape of a fractal network: width, depth and recurrence of its
/// layers, and the number of layers.
#[derive(Debug, Clone, Copy, PartialEq, Eq, Structural)]
pub struct NetShape {
    pub width: usize,
    pub depth: usize,
    pub recurrence: usize,
    pub layers: usize,
}

/// The scaling step of a factor: `2^min(factor, 3)`.
pub open spec fn scale_step(factor: nat) -> nat {
    pow2(if factor < 3 { factor } else { 3 })
}

/// The least recurrence of a scaled shape: the recurrence ladder runs
/// 4, 8, 16, 32, so halving never takes it below 4.
pub const MIN_RECURRENCE: usize = 4;

/// One axis scaled by `f`: multiplied for `Up` and `Equal`, divided for
/// `Down`, and at least `floor`.
pub open spec fn scaled_axis(x: nat, f: nat, dir: ScaleDir, floor: nat) -> nat {
    let v = match dir {
        ScaleDir::Down => x / f,
        _ => x * f,
    };
    if v >= floor { v } else { floor }
}

/// A shape scaled equally on every axis; width, depth and layer count stay
/// at least 1, recurrence at least 4.
pub open spec fn scaled_shape_spec(s: NetShape, factor: nat, dir: ScaleDir) -> NetShape {
    let f = scale_step(factor);
    NetShape {
        width: scaled_axis(s.width as nat, f, dir, 1) as usize,
        depth: scaled_axis(s.depth as nat, f, dir, 1) as usize,
        recurrence: scaled_axis(s.recurrence as nat, f, dir, MIN_RECURRENCE as nat) as usize,
        layers: scaled_axis(s.layers as nat, f, dir, 1) as usize,
    }
}

/// Every axis times the step still fits a `usize`.
pub open spec fn shape_scalable(s: NetShape, factor: nat) -> bool {
    let f = scale_step(factor);
    &&& s.width * f <= usize::MAX
    &&& s.depth * f <= usize::MAX
    &&& s.recurrence * f <= usize::MAX
    &&& s.layers * f <= usize::MAX
}

/// The step `2^min(factor, 3)`: 1, 2, 4 or 8.
fn step_of(factor: usize) -> (f: usize)
    ensures
        f == scale_step(factor as nat),
        1 <= f <= 8,
{
    reveal_with_fuel(pow2, 4);
    if factor == 0 { 1 } else if factor == 1 { 2 } else if factor == 2 { 4 } else { 8 }
}

/// One axis scaled by `f`, at least `floor`.
fn scale_axis(x: usize, f: usize, dir: ScaleDir, floor: usize) -> (v: usize)
    requires
        1 <= f,
        dir != ScaleDir::Down ==> x * f <= usize::MAX,
    ensures
        v == scaled_axis(x as nat, f as nat, dir, floor as nat),
{
    let v = match dir {
        ScaleDir::Down => x / f,
        _ => x * f,
    };
    if v >= floor { v } else { floor }
}

/// Scales a network shape equally in all dimensions by `2^min(factor, 3)`:
/// up (and `Equal`) multiplies every axis, down divides it; width, depth and
/// layer count stay at least 1, recurrence at least 4.
pub fn scaled_shape(base: NetShape, factor: usize, dir: ScaleDir) -> (s: NetShape)
    requires
        dir != ScaleDir::Down ==> shape_scalable(base, factor as nat),
    ensures
        s == scaled_shape_spec(base, factor as nat, dir),
{
    let f = step_of(factor);
    NetShape {
        width: scale_axis(base.width, f, dir, 1),
        depth: scale_axis(base.depth, f, dir, 1),
        recurrence: scale_axis(base.recurrence, f, dir, MIN_RECURRENCE),
        layers: scale_axis(base.layers, f, dir, 1),
    }
}

/// An axis at least its floor, scaled up and then down by the same step,
/// comes back.
proof fn lemma_axis_up_down(x: nat, f: nat, floor: nat)
    requires
        x >= 1,
        x >= floor,
        f >= 1,
    ensures
        scaled_axis(scaled_axis(x, f, ScaleDir::Up, floor), f, ScaleDir::Down, floor) == x,
{
    assert(x * f >= x) by (nonlinear_arith) requires x >= 1, f >= 1;
    assert(x * f >= 1) by (nonlinear_arith) requires x >= 1, f >= 1;
    assert((x * f) / f == x) by (nonlinear_arith) requires f >= 1;
}

/// An axis divisible by the step and at least the step times its floor,
/// scaled down and then up, comes back.
proof fn lemma_axis_down_up(x: nat, f: nat, floor: nat)
    requires
        f >= 1,
        floor >= 1,
        x >= f * floor,
        x % f == 0,
    ensures
        scaled_axis(scaled_axis(x, f, ScaleDir::Down, floor), f, ScaleDir::Up, floor) == x,
{
    assert(x / f >= floor) by (nonlinear_arith) requires x >= f * floor, f >= 1, floor >= 1;
    assert((x / f) * f >= floor) by (nonlinear_arith) requires x / f >= floor, f >= 1;
    assert((x / f) * f == x) by (nonlinear_arith) requires x % f == 0, f >= 1;
}

/// The step of a factor: 1 for factor 0, 2 for 1, 4 for 2, and 8 for every
/// factor from 3 on.
pub open spec fn step_table(factor: nat) -> nat {
    if factor == 0 { 1 } else if factor == 1 { 2 } else if factor == 2 { 4 } else { 8 }
}

/// The step doubles from 1 with each factor up to 3, then stays at 8.
pub proof fn lemma_scale_steps(factor: nat)
    ensures
        scale_step(factor) == step_table(factor),
        scale_step(0) == 1,
        factor >= 3 ==> scale_step(factor) == 8,
{
    reveal_with_fuel(pow2, 4);
}

/// Scaling a shape at or above its floors (1, and 4 for recurrence): up and
/// `Equal` multiply every axis by the step of the factor; down divides every
/// axis by it, rounding down, and lifts the result to its floor. Factor 0
/// leaves the shape as it is, whatever the direction.
pub proof fn lemma_scaled_shape_values(s: NetShape, factor: nat, dir: ScaleDir)
    requires
        s.width >= 1,
        s.depth >= 1,
        s.recurrence >= MIN_RECURRENCE,
        s.layers >= 1,
        dir != ScaleDir::Down ==> shape_scalable(s, factor),
    ensures
        ({
            let f = step_table(factor);
            let r = scaled_shape_spec(s, factor, dir);
            let (w, d, c, l) = (s.width as nat, s.depth as nat, s.recurrence as nat, s.layers as nat);
            &&& dir != ScaleDir::Down ==> r.width == w * f && r.depth == d * f
                && r.recurrence == c * f && r.layers == l * f
            &&& dir == ScaleDir::Down ==> r.width == (if w / f >= 1 { w / f } else { 1 })
                && r.depth == (if d / f >= 1 { d / f } else { 1 })
                && r.recurrence == (if c / f >= 4 { c / f } else { 4 })
                && r.layers == (if l / f >= 1 { l / f } else { 1 })
            &&& factor == 0 ==> r == s
        }),
{
    lemma_scale_steps(factor);
    let f = step_table(factor);
    lemma_axis_value(s.width as nat, f, dir, 1);
    lemma_axis_value(s.depth as nat, f, dir, 1);
    lemma_axis_value(s.recurrence as nat, f, dir, 4);
    lemma_axis_value(s.layers as nat, f, dir, 1);
}

/// One axis at or above its floor, scaled by a step of at least 1: the
/// product going up, the quotient going down (never more than the axis), and
/// the axis itself for a step of 1.
proof fn lemma_axis_value(x: nat, f: nat, dir: ScaleDir, floor: nat)
    requires
        f >= 1,
        x >= floor,
        x >= 1,
    ensures
        dir != ScaleDir::Down ==> scaled_axis(x, f, dir, floor) == x * f,
        dir == ScaleDir::Down ==> scaled_axis(x, f, dir, floor) <= x,
        f == 1 ==> scaled_axis(x, f, dir, floor) == x,
{
    assert(x * f >= x) by (nonlinear_arith) requires f >= 1, x >= 1;
    assert(x / f <= x) by (nonlinear_arith) requires f >= 1;
    assert(x * 1 == x && x / 1 == x);
}

/// Scaling is symmetric: up then down by the same factor gives back any
/// shape whose axes are within their floors (1, and 4 for recurrence); down
/// then up gives back any shape whose axes are multiples of the step and at
/// least the step times their floor.
pub proof fn lemma_scaled_shape_symmetric(s: NetShape, factor: nat)
    ensures
        (s.width >= 1 && s.depth >= 1 && s.recurrence >= MIN_RECURRENCE && s.layers >= 1 && shape_scalable(s, factor))
            ==> scaled_shape_spec(scaled_shape_spec(s, factor, ScaleDir::Up), factor, ScaleDir::Down) == s,
        ({
            let f = scale_step(factor);
            &&& s.width >= f && (s.width as nat) % f == 0
            &&& s.depth >= f && (s.depth as nat) % f == 0
            &&& s.recurrence >= f * MIN_RECURRENCE && (s.recurrence as nat) % f == 0
            &&& s.layers >= f && (s.layers as nat) % f == 0
        }) ==> scaled_shape_spec(scaled_shape_spec(s, factor, ScaleDir::Down), factor, ScaleDir::Up) == s,
{
    let f = scale_step(factor);
    reveal_with_fuel(pow2, 4);
    assert(f >= 1);
    if s.width >= 1 && s.depth >= 1 && s.recurrence >= MIN_RECURRENCE && s.layers >= 1 && shape_scalable(s, factor) {
        lemma_axis_up_down(s.width as nat, f, 1);
        lemma_axis_up_down(s.depth as nat, f, 1);
        lemma_axis_up_down(s.recurrence as nat, f, MIN_RECURRENCE as nat);
        lemma_axis_up_down(s.layers as nat, f, 1);
    }
    if s.width >= f && (s.width as nat) % f == 0 && s.depth >= f && (s.depth as nat) % f == 0
        && s.recurrence >= f * MIN_RECURRENCE && (s.recurrence as nat) % f == 0 && s.layers >= f && (s.layers as nat) % f == 0 {
        lemma_axis_down_up(s.width as nat, f, 1);
        lemma_axis_down_up(s.depth as nat, f, 1);
        lemma_axis_down_up(s.recurrence as nat, f, MIN_RECURRENCE as nat);
        lemma_axis_down_up(s.layers as nat, f, 1);
    }
}

} // verus!
