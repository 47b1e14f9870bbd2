//! Laws of the controls: every one of them acts, by what it is turned, and none acts alone for
//! another.
use vstd::arithmetic::power2::*;
use vstd::prelude::*;

use crate::ieee::accuracy::{
    lemma_double_literal, lemma_product_relative, lemma_single_difference_error,
    lemma_single_literal, lemma_single_sum_error, lemma_widened_exact, near, size,
};
use crate::ieee::{Double, Single};
use crate::maths::Elementary;
use crate::octree::ViewParams;
use crate::viewer::{Controls, Viewer};

verus! {

/// An angle is that of a drag over `points`: 35 radians against the drag for every ten thousand
/// points, up to one part in `2^50`.
pub open spec fn is_drag_angle(points: Single, angle: Double) -> bool {
    &&& angle.finite()
    &&& size(angle.units() * 10000 + 35 * (points.units() * pow2(925))) * pow2(50) <= 35 * size(
        points.units() * pow2(925),
    )
    &&& points.units() > 0 ==> angle.units() < 0
    &&& points.units() < 0 ==> angle.units() > 0
    &&& points.units() == 0 ==> angle.units() == 0
}

/// Controls of which none is touched; the frame time and the modifiers are those of `c`.
pub open spec fn untouched(c: Controls) -> Controls {
    Controls {
        look_x: Single { bits: 0x0000_0000 /* 0.0 */ },
        look_y: Single { bits: 0x0000_0000 /* 0.0 */ },
        dt: c.dt,
        boost: c.boost,
        slow: c.slow,
        roll_left: false,
        roll_right: false,
        forward: false,
        back: false,
        left: false,
        right: false,
        rise: false,
        sink: false,
        more_stars: false,
        fewer_stars: false,
        scroll: Single { bits: 0x0000_0000 /* 0.0 */ },
    }
}

/// The angle of a drag.
proof fn lemma_drag_angle(points: Single)
    requires
        points.finite(),
    ensures
        is_drag_angle(points, Controls::look_angle(points)),
{
    let c = Double { bits: 0x3f6c_ac08_3126_e979 /* 0.0035 */ };
    let m: nat = 0x1c_ac08_3126_e979;
    let a = points.opposite().widened();
    let angle = Controls::look_angle(points);
    let p = points.units();
    let (k, u) = (pow2(864), pow2(1074));
    lemma2_to64();
    lemma2_to64_rest();
    lemma_double_literal(c, m, 1013);
    lemma_widened_exact(points.opposite());
    assert(points.opposite().units() == -p);
    lemma_pow2_pos(864);
    lemma_pow2_pos(1074);
    lemma_pow2_adds(61, 864);
    lemma_pow2_adds(925, 1013);
    lemma_pow2_adds(1074, 864);
    lemma_pow2_strictly_increases(53, 864);
    let x = p * k;
    assert(p * pow2(925) == 0x2000_0000_0000_0000 * x) by (nonlinear_arith)
        requires
            x == p * k,
            pow2(925) == 0x2000_0000_0000_0000 * k,
    ;
    assert(a.units() == -(p * pow2(925))) by (nonlinear_arith)
        requires
            a.units() == (-p) * pow2(925),
    ;
    assert(a.units() * c.units() == -(x * m) * u) by (nonlinear_arith)
        requires
            a.units() == (-p) * pow2(925),
            c.units() == m * pow2(1013),
            pow2(925) * pow2(1013) == u * k,
            x == p * k,
    ;
    // The whole range of finite numbers is far below what a product can hold.
    assert(size(x * m) <= pow2(2000)) by {
        lemma_single_range(points);
        lemma_pow2_adds(277, 864);
        lemma_pow2_adds(53, 1141);
        lemma_pow2_strictly_increases(1194, 2000);
        assert(size(x * m) <= pow2(53) * pow2(1141)) by (nonlinear_arith)
            requires
                x == p * k,
                size(p) <= pow2(277),
                pow2(277) * k == pow2(1141),
                m <= pow2(53),
                k > 0,
        ;
    }
    assert(size(a.units() * c.units()) == size(x * m) * u) by (nonlinear_arith)
        requires
            a.units() * c.units() == -(x * m) * u,
            u > 0,
    ;
    assert(size(x * m) * u <= pow2(2000) * u) by (nonlinear_arith)
        requires
            size(x * m) <= pow2(2000),
    ;
    lemma_product_relative(a, c);
    assert(size(angle.units() + x * m) * pow2(53) <= size(x * m) + pow2(53)) by (nonlinear_arith)
        requires
            size(angle.units() * u - (-(x * m) * u)) * pow2(53) <= size(x * m) * u + pow2(53) * u,
            u > 0,
    ;
    assert(p > 0 ==> x >= k && p < 0 ==> x <= -k) by (nonlinear_arith)
        requires
            x == p * k,
            k > 0,
    ;
    assert(p < 0 ==> x <= -k) by (nonlinear_arith)
        requires
            x == p * k,
            k > 0,
    ;
    assert(p > 0 ==> x >= k) by (nonlinear_arith)
        requires
            x == p * k,
            k > 0,
    ;
    assert(p == 0 ==> x == 0 && a.units() * c.units() == 0) by (nonlinear_arith)
        requires
            x == p * k,
            a.units() == (-p) * pow2(925),
    ;
}

/// Finite numbers are below `2^277` units.
pub proof fn lemma_single_range(x: Single)
    requires
        x.finite(),
    ensures
        size(x.units()) <= pow2(277),
{
    lemma2_to64();
    let c = x.code();
    if c < pow2(23) {
        lemma_pow2_strictly_increases(23, 277);
    } else {
        let e = (c / pow2(23) - 1) as nat;
        assert(e <= 253);
        lemma_pow2_adds(24, e);
        if 24 + e < 277 {
            lemma_pow2_strictly_increases(24 + e, 277);
        }
        let m = c % pow2(23) + pow2(23);
        assert(m * pow2(e) <= pow2(24) * pow2(e)) by (nonlinear_arith)
            requires
                m <= pow2(24),
        ;
    }
}

/// Every drag turns the camera, along either axis or both: by a yaw against the horizontal drag
/// and a pitch against the vertical one. The law returns the two angles.
pub proof fn law_drags_turn_the_camera<M: Fn(Elementary, Double, Double) -> Double>(
    maths: M,
    before: Viewer,
    c: Controls,
) -> (angles: (Double, Double))
    requires
        c.look_x.finite(),
        c.look_y.finite(),
        c.look_x.units() != 0 || c.look_y.units() != 0,
        !c.roll_left,
        !c.roll_right,
        c.forward == c.back,
        c.left == c.right,
        c.rise == c.sink,
    ensures
        is_drag_angle(c.look_x, angles.0),
        is_drag_angle(c.look_y, angles.1),
        before.after_input(maths, c).camera == before.camera.rotated(maths, angles.0, angles.1),
{
    lemma_drag_angle(c.look_x);
    lemma_drag_angle(c.look_y);
    assert((Single { bits: 0x0000_0000 /* 0.0 */ }).units() == 0) by {
        lemma2_to64();
    }
    (Controls::look_angle(c.look_x), Controls::look_angle(c.look_y))
}

/// Controls that are not touched change nothing, whatever the frame time and the modifiers.
pub proof fn law_untouched_controls_change_nothing<M: Fn(Elementary, Double, Double) -> Double>(
    maths: M,
    before: Viewer,
    c: Controls,
)
    ensures
        before.after_input(maths, untouched(c)) == before,
{
    assert((Single { bits: 0x0000_0000 /* 0.0 */ }).units() == 0) by {
        lemma2_to64();
    }
}

/// Controls that turn the camera alone.
proof fn lemma_turn_alone<M: Fn(Elementary, Double, Double) -> Double>(
    maths: M,
    before: Viewer,
    c: Controls,
)
    requires
        !c.moves(),
        !c.more_stars,
        !c.fewer_stars,
        !c.scrolls(),
    ensures
        before.after_input(maths, c) == (Viewer { camera: c.turned(maths, before.camera), ..before }),
{
}

/// Controls that move the camera alone.
proof fn lemma_motion_alone<M: Fn(Elementary, Double, Double) -> Double>(
    maths: M,
    before: Viewer,
    c: Controls,
)
    requires
        !c.looks(),
        !c.roll_left,
        !c.roll_right,
        !c.more_stars,
        !c.fewer_stars,
        !c.scrolls(),
    ensures
        before.after_input(maths, c) == (Viewer {
            camera: if c.moves() {
                before.camera.moved(
                    c.heading().unit(),
                    c.pace(before.speed_m_per_s).product(c.dt),
                )
            } else {
                before.camera
            },
            ..before
        }),
{
}

/// Controls that leave the camera alone.
proof fn lemma_rest_alone<M: Fn(Elementary, Double, Double) -> Double>(
    maths: M,
    before: Viewer,
    c: Controls,
)
    requires
        !c.looks(),
        !c.roll_left,
        !c.roll_right,
        !c.moves(),
    ensures
        before.after_input(maths, c) == (Viewer {
            view: ViewParams { mag_limit: c.limited(before.view.mag_limit), ..before.view },
            scene_dirty: before.scene_dirty || c.more_stars || c.fewer_stars,
            speed_m_per_s: c.paced(maths, before.speed_m_per_s),
            ..before
        }),
{
}

/// The drag and the rolls, one after the other.
proof fn lemma_turns<M: Fn(Elementary, Double, Double) -> Double>(
    maths: M,
    before: Viewer,
    c: Controls,
)
    ensures
        ({
            let calm = untouched(c);
            let drag = Controls { look_x: c.look_x, look_y: c.look_y, ..calm };
            let left = Controls { roll_left: c.roll_left, ..calm };
            let right = Controls { roll_right: c.roll_right, ..calm };
            before.after_input(maths, drag).after_input(maths, left).after_input(maths, right) == (
            Viewer { camera: c.turned(maths, before.camera), ..before })
        }),
{
    let none = Single { bits: 0x0000_0000 /* 0.0 */ };
    assert(none.equals(none)) by {
        lemma2_to64();
    }
    let calm = untouched(c);
    let drag = Controls { look_x: c.look_x, look_y: c.look_y, ..calm };
    let left = Controls { roll_left: c.roll_left, ..calm };
    let right = Controls { roll_right: c.roll_right, ..calm };
    let v1 = before.after_input(maths, drag);
    lemma_turn_alone(maths, before, drag);
    let v2 = v1.after_input(maths, left);
    lemma_turn_alone(maths, v1, left);
    lemma_turn_alone(maths, v2, right);
}

/// The motion.
proof fn lemma_motions<M: Fn(Elementary, Double, Double) -> Double>(
    maths: M,
    before: Viewer,
    c: Controls,
)
    ensures
        ({
            let motion = Controls {
                forward: c.forward,
                back: c.back,
                left: c.left,
                right: c.right,
                rise: c.rise,
                sink: c.sink,
                ..untouched(c)
            };
            before.after_input(maths, motion) == (Viewer {
                camera: if c.moves() {
                    before.camera.moved(
                        c.heading().unit(),
                        c.pace(before.speed_m_per_s).product(c.dt),
                    )
                } else {
                    before.camera
                },
                ..before
            })
        }),
{
    let none = Single { bits: 0x0000_0000 /* 0.0 */ };
    assert(none.equals(none)) by {
        lemma2_to64();
    }
    let motion = Controls {
        forward: c.forward,
        back: c.back,
        left: c.left,
        right: c.right,
        rise: c.rise,
        sink: c.sink,
        ..untouched(c)
    };
    lemma_motion_alone(maths, before, motion);
    assert(motion.heading() == c.heading());
    assert(motion.pace(before.speed_m_per_s) == c.pace(before.speed_m_per_s));
}

/// The changes of the magnitude limit and the wheel, one after the other.
proof fn lemma_rests<M: Fn(Elementary, Double, Double) -> Double>(
    maths: M,
    before: Viewer,
    c: Controls,
)
    ensures
        ({
            let calm = untouched(c);
            let more = Controls { more_stars: c.more_stars, ..calm };
            let fewer = Controls { fewer_stars: c.fewer_stars, ..calm };
            let wheel = Controls { scroll: c.scroll, ..calm };
            before.after_input(maths, more).after_input(maths, fewer).after_input(maths, wheel) == (
            Viewer {
                view: ViewParams { mag_limit: c.limited(before.view.mag_limit), ..before.view },
                scene_dirty: before.scene_dirty || c.more_stars || c.fewer_stars,
                speed_m_per_s: c.paced(maths, before.speed_m_per_s),
                ..before
            })
        }),
{
    let none = Single { bits: 0x0000_0000 /* 0.0 */ };
    assert(none.equals(none)) by {
        lemma2_to64();
    }
    let calm = untouched(c);
    let more = Controls { more_stars: c.more_stars, ..calm };
    let fewer = Controls { fewer_stars: c.fewer_stars, ..calm };
    let wheel = Controls { scroll: c.scroll, ..calm };
    let v1 = before.after_input(maths, more);
    lemma_rest_alone(maths, before, more);
    let v2 = v1.after_input(maths, fewer);
    lemma_rest_alone(maths, v1, fewer);
    lemma_rest_alone(maths, v2, wheel);
}

/// Controls act one after the other, each as it does alone: the drag, the two rolls, the motion,
/// the two changes of the magnitude limit, and the wheel.
pub proof fn law_controls_act_one_after_the_other<M: Fn(Elementary, Double, Double) -> Double>(
    maths: M,
    before: Viewer,
    c: Controls,
)
    ensures
        ({
            let calm = untouched(c);
            let drag = Controls { look_x: c.look_x, look_y: c.look_y, ..calm };
            let left = Controls { roll_left: c.roll_left, ..calm };
            let right = Controls { roll_right: c.roll_right, ..calm };
            let motion = Controls {
                forward: c.forward,
                back: c.back,
                left: c.left,
                right: c.right,
                rise: c.rise,
                sink: c.sink,
                ..calm
            };
            let more = Controls { more_stars: c.more_stars, ..calm };
            let fewer = Controls { fewer_stars: c.fewer_stars, ..calm };
            let wheel = Controls { scroll: c.scroll, ..calm };
            before.after_input(maths, c) == before.after_input(maths, drag).after_input(
                maths,
                left,
            ).after_input(maths, right).after_input(maths, motion).after_input(
                maths,
                more,
            ).after_input(maths, fewer).after_input(maths, wheel)
        }),
{
    let calm = untouched(c);
    let drag = Controls { look_x: c.look_x, look_y: c.look_y, ..calm };
    let left = Controls { roll_left: c.roll_left, ..calm };
    let right = Controls { roll_right: c.roll_right, ..calm };
    let motion = Controls {
        forward: c.forward,
        back: c.back,
        left: c.left,
        right: c.right,
        rise: c.rise,
        sink: c.sink,
        ..calm
    };
    let more = Controls { more_stars: c.more_stars, ..calm };
    let fewer = Controls { fewer_stars: c.fewer_stars, ..calm };
    let wheel = Controls { scroll: c.scroll, ..calm };
    let v3 = before.after_input(maths, drag).after_input(maths, left).after_input(maths, right);
    lemma_turns(maths, before, c);
    let v4 = v3.after_input(maths, motion);
    lemma_motions(maths, v3, c);
    let v7 = v4.after_input(maths, more).after_input(maths, fewer).after_input(maths, wheel);
    lemma_rests(maths, v4, c);
}

/// An angle is that of a roll over a frame of `dt` seconds, of one and a half radians per second,
/// to the left or to the right.
pub open spec fn is_roll_angle(dt: Double, angle: Double, to_the_right: bool) -> bool {
    let asked = if to_the_right {
        3 * dt.units()
    } else {
        -(3 * dt.units())
    };
    angle.finite() && size(2 * angle.units() - asked) * pow2(53) <= size(asked) + pow2(54)
}

/// The angles of the two rolls.
proof fn lemma_roll_angles(dt: Double)
    requires
        dt.finite(),
        size(dt.units()) <= pow2(1900),
    ensures
        is_roll_angle(dt, (Double { bits: 0xbff8_0000_0000_0000 /* -1.5 */ }).product(dt), false),
        is_roll_angle(dt, (Double { bits: 0x3ff8_0000_0000_0000 /* 1.5 */ }).product(dt), true),
{
    let (a, b) = (Double { bits: 0x3ff8_0000_0000_0000 /* 1.5 */ }, Double { bits: 0xbff8_0000_0000_0000 /* -1.5 */ });
    let m: nat = 0x18_0000_0000_0000;
    let (t, k, u) = (dt.units(), pow2(1022), pow2(1074));
    lemma2_to64();
    lemma2_to64_rest();
    lemma_double_literal(a, m, 1022);
    assert(b.code() == a.code() && b.units() == -a.units());
    lemma_pow2_pos(1022);
    lemma_pow2_pos(1074);
    lemma_pow2_adds(52, 1022);
    lemma_pow2_strictly_increases(1900, 1999);
    lemma_pow2_adds(1, 1999);
    assert(a.units() * t == m * t * k && b.units() * t == -(m * t) * k) by (nonlinear_arith)
        requires
            a.units() == m * k,
            b.units() == -(m * k),
    ;
    assert(size(m * t * k) == size(m * t) * k && size(-(m * t) * k) == size(m * t) * k)
        by (nonlinear_arith)
        requires
            k > 0,
    ;
    assert(size(m * t) <= 0x20_0000_0000_0000 * pow2(1900));
    lemma_pow2_adds(53, 1900);
    lemma_pow2_strictly_increases(1953, 2000);
    assert(size(m * t) * k <= pow2(2000) * u) by (nonlinear_arith)
        requires
            size(m * t) <= pow2(2000),
            k <= u,
    ;
    lemma_product_relative(a, dt);
    lemma_product_relative(b, dt);
    let (p, q) = (a.product(dt).units(), b.product(dt).units());
    let x = m * t;
    let w: int = 0x10_0000_0000_0000;
    assert(size(p * w - x) * pow2(53) <= size(x) + pow2(53) * w) by (nonlinear_arith)
        requires
            size(p * u - x * k) * pow2(53) <= size(x) * k + pow2(53) * u,
            u == w * k,
            k > 0,
    ;
    assert(size(q * w + x) * pow2(53) <= size(x) + pow2(53) * w) by (nonlinear_arith)
        requires
            size(q * u - (-x) * k) * pow2(53) <= size(x) * k + pow2(53) * u,
            u == w * k,
            k > 0,
    ;
}

/// A roll to the left and one to the right turn the camera, whatever it does besides: the roll
/// comes after the drag, by one and a half radians per second either way. The law returns the
/// angle.
pub proof fn law_rolls_turn_the_camera<M: Fn(Elementary, Double, Double) -> Double>(
    maths: M,
    before: Viewer,
    c: Controls,
) -> (angle: Double)
    requires
        c.dt.finite(),
        size(c.dt.units()) <= pow2(1900),
        c.roll_left != c.roll_right,
        c.forward == c.back,
        c.left == c.right,
        c.rise == c.sink,
    ensures
        is_roll_angle(c.dt, angle, c.roll_right),
        ({
            let drag = Controls { roll_left: false, roll_right: false, ..c };
            before.after_input(maths, c).camera == before.after_input(maths, drag).camera.rolled(
                maths,
                angle,
            )
        }),
{
    lemma_roll_angles(c.dt);
    if c.roll_right {
        (Double { bits: 0x3ff8_0000_0000_0000 /* 1.5 */ }).product(c.dt)
    } else {
        (Double { bits: 0xbff8_0000_0000_0000 /* -1.5 */ }).product(c.dt)
    }
}

/// The keys for more and for fewer stars raise and lower the magnitude limit by half a magnitude,
/// up to one part in `2^18` of a magnitude, and have the scene rebuilt; without them both stay.
pub proof fn law_limit_moves_by_half_a_magnitude<M: Fn(Elementary, Double, Double) -> Double>(
    maths: M,
    before: Viewer,
    c: Controls,
)
    requires
        before.view.mag_limit.finite(),
        size(before.view.mag_limit.units()) <= 100 * pow2(149),
    ensures
        ({
            let after = before.after_input(maths, c);
            let (a, b) = (before.view.mag_limit.units(), after.view.mag_limit.units());
            &&& after.view.mag_limit.finite()
            &&& c.more_stars && !c.fewer_stars ==> near(b, a + pow2(148), pow2(131) as int)
            &&& c.fewer_stars && !c.more_stars ==> near(b, a - pow2(148), pow2(131) as int)
            &&& c.more_stars && c.fewer_stars ==> near(b, a, pow2(132) as int)
            &&& c.more_stars || c.fewer_stars ==> after.scene_dirty
            &&& !c.more_stars && !c.fewer_stars ==> after.view == before.view && after.scene_dirty
                == before.scene_dirty
            &&& after.view == ViewParams { mag_limit: after.view.mag_limit, ..before.view }
        }),
{
    let half = Single { bits: 0x3f00_0000 /* 0.5 */ };
    let limit = before.view.mag_limit;
    lemma2_to64();
    lemma_single_literal(half, 0x80_0000, 125);
    lemma_pow2_adds(23, 125);
    lemma_pow2_adds(1, 148);
    lemma_pow2_adds(7, 149);
    lemma_pow2_adds(1, 131);
    lemma_pow2_adds(1, 132);
    lemma_pow2_pos(131);
    lemma_pow2_pos(148);
    lemma_pow2_strictly_increases(132, 148);
    lemma_single_sum_error(limit, half, 134);
    lemma_single_difference_error(limit, half, 134);
    let raised = limit.sum(half);
    lemma_single_difference_error(raised, half, 134);
}

} // verus!
