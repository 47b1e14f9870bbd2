//! Laws of the viewer and of the build tasks.
use vstd::arithmetic::power2::*;
use vstd::prelude::*;

use crate::coord::METERS_PER_LIGHT_YEAR;
use crate::ieee::accuracy::{lemma_double_literal, lemma_product_relative, size};
use crate::ieee::bounds::{lemma_power_code, power_code};
use crate::ieee::double::DOUBLE_INF;
use crate::ieee::encoding::{code_units, Double};
use crate::ieee::exact::{lemma_nearest_at_least, lemma_nearest_exists};
use crate::ieee::rounding::{lemma_code_units_ordered, nearest_code};
use crate::laws::coord::{law_distance_to_itself_is_zero, law_distances_tell_positions_apart};
use crate::maths::Elementary;
use crate::render::camera::Camera;
use crate::tasks::{follows, is_over, Step, Task};
use crate::viewer::{scaled_speed, Controls, Viewer};

verus! {

/// Each of the viewers follows the one before it by a frame of input.
pub open spec fn are_frames<M: Fn(Elementary, Double, Double) -> Double>(
    maths: M,
    viewers: Seq<Viewer>,
    controls: Seq<Controls>,
) -> bool {
    &&& viewers.len() == controls.len() + 1
    &&& forall|i: int|
        0 <= i < controls.len() ==> (#[trigger] viewers[i]).advances_to(
            maths,
            controls[i],
            viewers[i + 1],
        )
}

/// While the camera is detached the observer stays where it is, whatever the user does.
pub proof fn law_detached_observer_is_frozen<M: Fn(Elementary, Double, Double) -> Double>(
    maths: M,
    viewers: Seq<Viewer>,
    controls: Seq<Controls>,
)
    requires
        are_frames(maths, viewers, controls),
        viewers[0].camera_detached,
    ensures
        viewers.last().camera_detached,
        viewers.last().observer == viewers[0].observer,
        viewers.last().observer_orientation == viewers[0].observer_orientation,
    decreases controls.len(),
{
    if controls.len() > 0 {
        let (v, c) = (viewers.drop_last(), controls.drop_last());
        assert forall|i: int| 0 <= i < c.len() implies (#[trigger] v[i]).advances_to(
            maths,
            c[i],
            v[i + 1],
        ) by {
            assert(v[i] == viewers[i] && v[i + 1] == viewers[i + 1]);
        }
        law_detached_observer_is_frozen(maths, v, c);
        assert(viewers[controls.len() - 1].advances_to(
            maths,
            controls[controls.len() - 1],
            viewers[controls.len() as int],
        ));
    }
}

/// Attaching the camera again takes it back to where it was when it was detached, however far it
/// has gone meanwhile.
pub proof fn law_attaching_undoes_the_flight<M: Fn(Elementary, Double, Double) -> Double>(
    maths: M,
    start: Viewer,
    viewers: Seq<Viewer>,
    controls: Seq<Controls>,
)
    requires
        are_frames(maths, viewers, controls),
        viewers[0] == start.detached_as(true),
    ensures
        viewers.last().detached_as(false).camera.position == start.camera.position,
        viewers.last().detached_as(false).camera.orientation == start.camera.orientation,
        !viewers.last().detached_as(false).camera_detached,
{
    law_detached_observer_is_frozen(maths, viewers, controls);
}

/// While the camera is attached the observer is where the camera is, after every frame.
pub proof fn law_attached_observer_is_the_camera<M: Fn(Elementary, Double, Double) -> Double>(
    maths: M,
    before: Viewer,
    controls: Controls,
    after: Viewer,
)
    requires
        before.advances_to(maths, controls, after),
        !before.camera_detached,
    ensures
        !after.camera_detached,
        after.observer == after.camera.position,
        after.observer_orientation == after.camera.orientation,
{
}

proof fn lemma_patience_is_positive(v: Viewer)
    ensures
        !v.patience().less(Double { bits: 0 }),
{
    let zero = Double { bits: 0 };
    let floor = Double { bits: 0x41cd_cd65_0000_0000 /* 1.0e9 */ };
    lemma_pow2_pos(52);
    assert(zero.units() == 0);
    assert(floor.units() >= 0);
}

/// A scene that was just rebuilt, and shows something, is not rebuilt again until something
/// changes.
pub proof fn law_rebuilt_scene_is_not_stale<M: Fn(Elementary, Double, Double) -> Double>(
    maths: M,
    before: Viewer,
    after: Viewer,
)
    requires
        after.shows(maths, before),
        after.visible_stars@.len() > 0,
    ensures
        !after.is_stale(),
{
    law_distance_to_itself_is_zero(after.observer);
    lemma_patience_is_positive(after);
}

/// A detached camera does not change what is shown: a frame without tweaks leaves the scene that
/// was built for the observer as it is.
pub proof fn law_detached_camera_keeps_the_scene<M: Fn(Elementary, Double, Double) -> Double>(
    maths: M,
    before: Viewer,
    controls: Controls,
    after: Viewer,
)
    requires
        before.advances_to(maths, controls, after),
        before.camera_detached,
        before.scene_anchor == before.observer,
        !before.scene_dirty,
        before.visible_stars@.len() > 0,
        !controls.more_stars,
        !controls.fewer_stars,
    ensures
        after.visible_stars == before.visible_stars,
        after.visible_nodes == before.visible_nodes,
        after.galaxy == before.galaxy,
{
    let moved = before.after_input(maths, controls).following();
    law_distance_to_itself_is_zero(moved.observer);
    lemma_patience_is_positive(moved);
}

/// A tenth is less than a hundred thousand light-years.
proof fn lemma_speed_range()
    ensures
        ({
            let fastest = (Double { bits: 0x40f8_6a00_0000_0000 /* 1.0e5 */ }).product(Double { bits: METERS_PER_LIGHT_YEAR });
            !fastest.nan() && (Double { bits: 0x3fb9_9999_9999_999a /* 0.1 */ }).at_most(fastest)
        }),
{
    let ly = Double { bits: METERS_PER_LIGHT_YEAR };
    let (slow, many) = (Double { bits: 0x3fb9_9999_9999_999a /* 0.1 */ }, Double { bits: 0x40f8_6a00_0000_0000 /* 1.0e5 */ });
    let (n, x, d) = (code_units(ly.code(), 52), code_units(many.code(), 52), pow2(1074));
    let inf = DOUBLE_INF as nat;
    lemma_pow2_pos(1074);
    lemma_power_code(0);
    lemma_code_units_ordered(power_code(0), ly.code(), 52);
    lemma_code_units_ordered(power_code(0), many.code(), 52);
    assert(x * n >= d * d) by (nonlinear_arith)
        requires
            x >= d,
            n >= d,
            d > 0,
    ;
    lemma_nearest_exists(x * n, d, 52, inf);
    lemma_nearest_at_least(x * n, d, 52, inf, power_code(0));
    let c = nearest_code(x * n, d, 52, inf);
    lemma_code_units_ordered(slow.code(), c, 52);
}

/// The wheel keeps the speed between a tenth of a meter and a hundred thousand light-years per
/// second.
pub proof fn law_speed_stays_in_range(speed: Double, factor: Double)
    requires
        !speed.product(factor).nan(),
    ensures
        (Double { bits: 0x3fb9_9999_9999_999a /* 0.1 */ }).at_most(scaled_speed(speed, factor)),
        scaled_speed(speed, factor).at_most(
            (Double { bits: 0x40f8_6a00_0000_0000 /* 1.0e5 */ }).product(Double { bits: METERS_PER_LIGHT_YEAR }),
        ),
{
    lemma_speed_range();
}

/// The result of a task's steps, given which of them succeed.
pub open spec fn outcome(step: Step, succeeded: Seq<bool>) -> Step
    decreases succeeded.len(),
{
    if succeeded.len() == 0 {
        step
    } else {
        follows(outcome(step, succeeded.drop_last()), succeeded.last())
    }
}

/// The first step of a task.
pub open spec fn begins(task: Task) -> Step {
    match task {
        Task::BuildWasm { release } => Step::Compile { release },
        Task::Serve => Step::ProbePython,
        Task::Help => Step::PrintHelp,
    }
}

/// Every task is over after three steps at most.
pub proof fn law_tasks_end(task: Task, succeeded: Seq<bool>)
    requires
        succeeded.len() == 3,
    ensures
        is_over(outcome(begins(task), succeeded)),
{
    reveal_with_fuel(outcome, 4);
}

/// A task that is over stays as it ended.
pub proof fn law_endings_are_final(step: Step, succeeded: bool)
    requires
        is_over(step),
    ensures
        follows(step, succeeded) == step,
{
}

/// A build succeeds only where the compiler, the probe and the glue generator all did.
pub proof fn law_build_needs_every_step(release: bool, succeeded: Seq<bool>)
    requires
        succeeded.len() == 3,
        outcome(begins(Task::BuildWasm { release }), succeeded) == Step::Done,
    ensures
        forall|i: int| 0 <= i < 3 ==> succeeded[i],
{
    reveal_with_fuel(outcome, 4);
    let (a, b) = (succeeded.drop_last(), succeeded.drop_last().drop_last());
    assert(a.last() == succeeded[1] && b.last() == succeeded[0]);
}

/// The scene has to show the observer's surroundings again: something asked for it, it shows
/// nothing, or the observer is far from where it was built.
pub open spec fn is_outdated(before: Viewer, c: Controls, far: bool) -> bool {
    before.scene_dirty || c.more_stars || c.fewer_stars || before.visible_stars@.len() == 0 || far
}

/// What is close to the product with the held twentieth is close to the twentieth.
pub proof fn lemma_twentieth(s: int, p: int)
    requires
        s >= 0x1_0000_0000_0000_0000,
        size(p * 0x200_0000_0000_0000 - s * 0x19_9999_9999_999a) * 0x20_0000_0000_0000 <= s
            * 0x19_9999_9999_999a + 0x20_0000_0000_0000 * 0x200_0000_0000_0000,
    ensures
        20 * p * 0x4_0000_0000_0000 >= s * 0x3_ffff_ffff_ffff,
        20 * p * 0x4_0000_0000_0000 <= s * 0x4_0000_0000_0001,
{
    assert(20 * p * 0x4000000000000000000000000000 <= s * 0x4000000000000308000000000008) by {
        assert((p * 0x200_0000_0000_0000 - s * 0x19_9999_9999_999a) * 0x20_0000_0000_0000 <= s
            * 0x19_9999_9999_999a + 0x20_0000_0000_0000 * 0x200_0000_0000_0000);
    }
    assert(s * 0x4000000000000308000000000008 <= s * 0x4000000000001000000000000000) by (nonlinear_arith)
        requires
            s >= 0,
    ;
    assert(20 * p * 0x4000000000000000000000000000 <= s * 0x4000000000001000000000000000);
}

/// How far the observer may go without a new scene.
proof fn lemma_patience(v: Viewer)
    requires
        v.speed_m_per_s.finite(),
        pow2(64) <= v.speed_m_per_s.units() <= pow2(1900),
    ensures
        ({
            let (p, s) = (v.patience(), v.speed_m_per_s.units());
            let u = pow2(1074);
            &&& p.finite()
            &&& p.units() >= 1_000_000_000 * u
            &&& 20 * p.units() * 0x4_0000_0000_0000 >= s * 0x3_ffff_ffff_ffff
            &&& p.units() == 1_000_000_000 * u || 20 * p.units() * 0x4_0000_0000_0000 <= s * 0x4_0000_0000_0001
        }),
{
    let c = Double { bits: 0x3fa9_9999_9999_999a /* 0.05 */ };
    let least = Double { bits: 0x41cd_cd65_0000_0000 /* 1.0e9 */ };
    let m: nat = 0x19_9999_9999_999a;
    let speed = v.speed_m_per_s;
    let (s, k, u) = (speed.units(), pow2(1017), pow2(1074));
    lemma2_to64();
    lemma2_to64_rest();
    lemma_double_literal(c, m, 1017);
    lemma_double_literal(least, 0x1d_cd65_0000_0000, 1051);
    lemma_pow2_pos(1017);
    lemma_pow2_pos(1074);
    lemma_pow2_adds(57, 1017);
    lemma_pow2_adds(23, 1051);
    assert(least.units() == 1_000_000_000 * u);
    let x = s * m;
    assert(s * c.units() == x * k) by (nonlinear_arith)
        requires
            c.units() == m * k,
            x == s * m,
    ;
    lemma_pow2_adds(53, 1900);
    lemma_pow2_strictly_increases(1953, 2000);
    assert(0 <= x && x * k <= pow2(2000) * u && x * k >= 0) by (nonlinear_arith)
        requires
            x == s * m,
            0 <= s <= pow2(1900),
            m <= pow2(53),
            pow2(53) * pow2(1900) <= pow2(2000),
            0 < k <= u,
    ;
    lemma_product_relative(speed, c);
    let p = speed.product(c).units();
    let w: int = 0x200_0000_0000_0000;
    assert(size(p * w - x) * pow2(53) <= x + pow2(53) * w) by (nonlinear_arith)
        requires
            size(p * u - x * k) * pow2(53) <= x * k + pow2(53) * u,
            u == w * k,
            k > 0,
    ;
    lemma_twentieth(s, p);
}

/// A new scene is built exactly where the old one is outdated, for where the observer is now and
/// for the view as it is now: everything that is then shown is what a traversal from there finds.
/// Otherwise the scene stays. The observer is far from the old scene where it is more than a
/// million kilometers and more than the way of a twentieth of a second away.
pub proof fn law_scene_follows_the_observer<M: Fn(Elementary, Double, Double) -> Double>(
    maths: M,
    before: Viewer,
    c: Controls,
    after: Viewer,
)
    requires
        before.advances_to(maths, c, after),
        after.observer.measurable_from(before.scene_anchor),
        after.speed_m_per_s.finite(),
        pow2(64) <= after.speed_m_per_s.units() <= pow2(1900),
    ensures
        ({
            let (d, s) = (
                after.observer.distance(before.scene_anchor).units(),
                after.speed_m_per_s.units(),
            );
            let far = d > 1_000_000_000 * pow2(1074) && 20 * d * 0x4_0000_0000_0000 > s * 0x4_0000_0000_0001;
            let at_hand = d <= 1_000_000_000 * pow2(1074) || 20 * d * 0x4_0000_0000_0000 < s * 0x3_ffff_ffff_ffff;
            &&& is_outdated(before, c, far) ==> before.galaxy.finds(
                maths,
                after.observer,
                after.view,
                after.visible_stars@,
                after.last_stats,
                after.visible_nodes@,
                after.galaxy,
            ) && after.scene_anchor == after.observer && !after.scene_dirty
            &&& !is_outdated(before, c, !at_hand) ==> {
                &&& after.visible_stars == before.visible_stars
                &&& after.visible_nodes == before.visible_nodes
                &&& after.last_stats == before.last_stats
                &&& after.scene_anchor == before.scene_anchor
                &&& after.galaxy == before.galaxy
                &&& !after.scene_dirty
            }
        }),
{
    lemma_patience(after);
    law_distances_tell_positions_apart(after.observer, before.scene_anchor);
    let moved = before.after_input(maths, c).following();
    assert(moved.patience() == after.patience());
    assert(moved.observer == after.observer);
    let d = after.observer.distance(before.scene_anchor).units();
    let (p, s) = (after.patience().units(), after.speed_m_per_s.units());
    lemma2_to64();
    assert(d > p ==> moved.is_stale());
}

/// The user's input moves the camera, the magnitude limit and the speed alone: the galaxy, what is
/// shown of it, the observer, the switches and the camera's angle stay, and a scene that has to be
/// rebuilt still has to.
pub proof fn law_input_leaves_the_rest<M: Fn(Elementary, Double, Double) -> Double>(
    maths: M,
    before: Viewer,
    c: Controls,
)
    ensures
        ({
            let after = before.after_input(maths, c);
            &&& after.galaxy == before.galaxy
            &&& after.visible_stars == before.visible_stars
            &&& after.visible_nodes == before.visible_nodes
            &&& after.last_stats == before.last_stats
            &&& after.scene_anchor == before.scene_anchor
            &&& after.observer == before.observer
            &&& after.observer_orientation == before.observer_orientation
            &&& after.camera_detached == before.camera_detached
            &&& after.last_instances == before.last_instances
            &&& after.show_nodes == before.show_nodes
            &&& after.show_frustums == before.show_frustums
            &&& after.max_wire_nodes == before.max_wire_nodes
            &&& after.camera.fov_y == before.camera.fov_y
            &&& before.scene_dirty ==> after.scene_dirty
        }),
{
    reveal(Camera::rotated);
    reveal(Camera::rolled);
}

/// Detaching the camera leaves it where it is and the observer there with it; attaching it takes
/// it to where the observer is, looking as the observer does. Neither changes anything else.
pub proof fn law_detaching_changes_the_pose_alone(before: Viewer, detached: bool)
    ensures
        ({
            let after = before.detached_as(detached);
            &&& after.camera_detached == detached
            &&& detached ==> after.camera == before.camera
            &&& after.observer == after.camera.position
            &&& after.observer_orientation == after.camera.orientation
            &&& !detached ==> after.observer == before.observer && after.observer_orientation
                == before.observer_orientation && after.camera.fov_y == before.camera.fov_y
            &&& after.galaxy == before.galaxy
            &&& after.view == before.view
            &&& after.speed_m_per_s == before.speed_m_per_s
            &&& after.visible_stars == before.visible_stars
            &&& after.visible_nodes == before.visible_nodes
            &&& after.last_stats == before.last_stats
            &&& after.scene_anchor == before.scene_anchor
            &&& after.scene_dirty == before.scene_dirty
            &&& after.show_nodes == before.show_nodes
            &&& after.show_frustums == before.show_frustums
            &&& after.max_wire_nodes == before.max_wire_nodes
        }),
{
}

/// A frame of input takes the input as it is, and then the observer along unless the camera is
/// detached.
pub proof fn law_advance_takes_the_input<M: Fn(Elementary, Double, Double) -> Double>(
    maths: M,
    before: Viewer,
    c: Controls,
    after: Viewer,
)
    requires
        before.advances_to(maths, c, after),
    ensures
        ({
            let input = before.after_input(maths, c);
            &&& after.camera == input.camera
            &&& after.view == input.view
            &&& after.speed_m_per_s == input.speed_m_per_s
            &&& after.camera_detached == before.camera_detached
            &&& after.observer == if before.camera_detached {
                before.observer
            } else {
                after.camera.position
            }
            &&& after.observer_orientation == if before.camera_detached {
                before.observer_orientation
            } else {
                after.camera.orientation
            }
            &&& after.show_nodes == before.show_nodes
            &&& after.show_frustums == before.show_frustums
            &&& after.max_wire_nodes == before.max_wire_nodes
        }),
{
}

} // verus!
