//! Laws of frames: what is drawn is seen from the camera, and chosen by the observer.
use vstd::prelude::*;

use crate::coord::GalacticCoord;
use crate::ieee::{Double, Single};
use crate::laws::directions::{
    law_directions_point_at_their_stars, law_stars_at_hand_are_not_drawn, points_from,
};
use crate::maths::Elementary;
use crate::octree::VisibleStar;
use crate::params::ONE;
use crate::render::camera::Camera;
use crate::render::projection::Projection;
use crate::render::stars::{brightness, direction, instance_of, instances_of, InstanceRaw};
use crate::viewer::{aspect_of, Frame, Viewer};

verus! {

/// A star that the observer sees and the camera can draw: not within a meter of either, inside
/// the observer's viewport, and with some brightness.
pub open spec fn is_selected<M: Fn(Elementary, Double, Double) -> Double>(
    maths: M,
    v: VisibleStar,
    eye: GalacticCoord,
    observer: GalacticCoord,
    observer_view: Projection,
    mag_limit: Single,
) -> bool {
    let intensity = brightness(maths, v, v.star.pos.distance(observer), mag_limit);
    &&& !v.star.pos.distance(observer).less(Double { bits: ONE })
    &&& !v.star.pos.distance(eye).less(Double { bits: ONE })
    &&& observer_view.shows(direction(v.star.pos, observer))
    &&& !intensity.at_most(Single { bits: 0x0000_0000 /* 0.0 */ })
}

/// An instance shows a star: in its direction from the camera, with its color, and as bright as
/// the observer sees it.
pub open spec fn is_shown_by<M: Fn(Elementary, Double, Double) -> Double>(
    maths: M,
    v: VisibleStar,
    eye: GalacticCoord,
    observer: GalacticCoord,
    mag_limit: Single,
    i: InstanceRaw,
) -> bool {
    &&& v.star.pos != eye
    &&& points_from(i.dir@, eye, v.star.pos)
    &&& i.color == v.star.color
    &&& i.intensity == brightness(maths, v, v.star.pos.distance(observer), mag_limit)
}

/// What a choice keeps of the stars, in order.
spec fn kept_of(
    choice: spec_fn(VisibleStar) -> Option<InstanceRaw>,
    stars: Seq<VisibleStar>,
) -> Seq<InstanceRaw>
    decreases stars.len(),
{
    if stars.len() == 0 {
        Seq::empty()
    } else {
        let before = kept_of(choice, stars.drop_last());
        match choice(stars.last()) {
            Some(i) => before.push(i),
            None => before,
        }
    }
}

/// The instances are those that a choice keeps.
proof fn lemma_instances_are_kept<M: Fn(Elementary, Double, Double) -> Double>(
    maths: M,
    choice: spec_fn(VisibleStar) -> Option<InstanceRaw>,
    stars: Seq<VisibleStar>,
    eye: GalacticCoord,
    observer: GalacticCoord,
    observer_view: Projection,
    mag_limit: Single,
)
    requires
        forall|v: VisibleStar| #[trigger]
            choice(v) == instance_of(maths, v, eye, observer, observer_view, mag_limit),
    ensures
        instances_of(maths, stars, eye, observer, observer_view, mag_limit) == kept_of(
            choice,
            stars,
        ),
    decreases stars.len(),
{
    if stars.len() > 0 {
        lemma_instances_are_kept(
            maths,
            choice,
            stars.drop_last(),
            eye,
            observer,
            observer_view,
            mag_limit,
        );
        assert(choice(stars.last()) == instance_of(
            maths,
            stars.last(),
            eye,
            observer,
            observer_view,
            mag_limit,
        ));
    }
}

/// Which stars a choice keeps.
proof fn lemma_kept(
    choice: spec_fn(VisibleStar) -> Option<InstanceRaw>,
    stars: Seq<VisibleStar>,
) -> (of: Seq<int>)
    ensures
        of.len() == kept_of(choice, stars).len(),
        forall|i: int|
            0 <= i < of.len() ==> 0 <= #[trigger] of[i] < stars.len() && choice(stars[of[i]])
                == Some(kept_of(choice, stars)[i]),
        forall|i: int, j: int| 0 <= i < j < of.len() ==> #[trigger] of[i] < #[trigger] of[j],
        forall|j: int|
            0 <= j < stars.len() && choice(#[trigger] stars[j]) is Some ==> of.contains(j),
    decreases stars.len(),
{
    if stars.len() == 0 {
        Seq::empty()
    } else {
        let before = stars.drop_last();
        let a = lemma_kept(choice, before);
        let held = kept_of(choice, before);
        let kept = kept_of(choice, stars);
        let last = stars.len() - 1;
        let of = if choice(stars.last()) is Some {
            a.push(last)
        } else {
            a
        };
        assert forall|i: int| 0 <= i < of.len() implies 0 <= #[trigger] of[i] < stars.len()
            && choice(stars[of[i]]) == Some(kept[i]) by {
            if i < a.len() {
                assert(of[i] == a[i]);
                assert(kept[i] == held[i]);
                assert(before[a[i]] == stars[a[i]]);
            }
        }
        assert forall|i: int, j: int| 0 <= i < j < of.len() implies #[trigger] of[i]
            < #[trigger] of[j] by {
            assert(of[i] == a[i]);
            if j < a.len() {
                assert(of[j] == a[j]);
            }
        }
        assert forall|j: int|
            0 <= j < stars.len() && choice(#[trigger] stars[j]) is Some implies of.contains(j) by {
            if j < last {
                assert(before[j] == stars[j]);
                let i = choose|i: int| 0 <= i < a.len() && a[i] == j;
                assert(of[i] == j);
            } else {
                assert(of[of.len() - 1] == j);
            }
        }
        of
    }
}

/// The instance of one star.
proof fn lemma_instance<M: Fn(Elementary, Double, Double) -> Double>(
    maths: M,
    v: VisibleStar,
    eye: GalacticCoord,
    observer: GalacticCoord,
    observer_view: Projection,
    mag_limit: Single,
)
    requires
        v.star.pos.measurable_from(eye),
    ensures
        ({
            let one = instance_of(maths, v, eye, observer, observer_view, mag_limit);
            &&& (one is Some) == is_selected(maths, v, eye, observer, observer_view, mag_limit)
            &&& one is Some ==> is_shown_by(maths, v, eye, observer, mag_limit, one->0)
        }),
{
    let one = instance_of(maths, v, eye, observer, observer_view, mag_limit);
    if one is Some {
        law_stars_at_hand_are_not_drawn(maths, v, eye, observer, observer_view, mag_limit);
        law_directions_point_at_their_stars(v.star.pos, eye);
    }
}

/// Which stars the instances are of.
proof fn lemma_instances<M: Fn(Elementary, Double, Double) -> Double>(
    maths: M,
    stars: Seq<VisibleStar>,
    eye: GalacticCoord,
    observer: GalacticCoord,
    observer_view: Projection,
    mag_limit: Single,
) -> (of: Seq<int>)
    requires
        forall|j: int| 0 <= j < stars.len() ==> (#[trigger] stars[j]).star.pos.measurable_from(eye),
    ensures
        ({
            let drawn = instances_of(maths, stars, eye, observer, observer_view, mag_limit);
            &&& of.len() == drawn.len()
            &&& forall|i: int|
                0 <= i < of.len() ==> 0 <= #[trigger] of[i] < stars.len() && is_shown_by(
                    maths,
                    stars[of[i]],
                    eye,
                    observer,
                    mag_limit,
                    drawn[i],
                ) && is_selected(maths, stars[of[i]], eye, observer, observer_view, mag_limit)
            &&& forall|i: int, j: int| 0 <= i < j < of.len() ==> #[trigger] of[i] < #[trigger] of[j]
            &&& forall|j: int|
                0 <= j < stars.len() && is_selected(
                    maths,
                    #[trigger] stars[j],
                    eye,
                    observer,
                    observer_view,
                    mag_limit,
                ) ==> of.contains(j)
        }),
{
    let choice = |v: VisibleStar|
        instance_of(maths, v, eye, observer, observer_view, mag_limit);
    lemma_instances_are_kept(maths, choice, stars, eye, observer, observer_view, mag_limit);
    let of = lemma_kept(choice, stars);
    let drawn = instances_of(maths, stars, eye, observer, observer_view, mag_limit);
    assert forall|i: int| 0 <= i < of.len() implies 0 <= #[trigger] of[i] < stars.len()
        && is_shown_by(maths, stars[of[i]], eye, observer, mag_limit, drawn[i]) && is_selected(
        maths,
        stars[of[i]],
        eye,
        observer,
        observer_view,
        mag_limit,
    ) by {
        lemma_instance(maths, stars[of[i]], eye, observer, observer_view, mag_limit);
    }
    assert forall|j: int|
        0 <= j < stars.len() && is_selected(
            maths,
            #[trigger] stars[j],
            eye,
            observer,
            observer_view,
            mag_limit,
        ) implies of.contains(j) by {
        lemma_instance(maths, stars[j], eye, observer, observer_view, mag_limit);
        assert(choice(stars[j]) is Some);
    }
    of
}

/// In every frame, detached or not, each instance shows a visible star in its direction from the
/// camera, with its color, and as bright as it is seen from the observer; and every visible star
/// that the observer's viewport holds is shown, in order. The frame is projected by the camera.
/// The law returns which star each instance shows.
pub proof fn law_frames_show_stars_from_the_camera<M: Fn(Elementary, Double, Double) -> Double>(
    maths: M,
    before: Viewer,
    viewport: [Single; 2],
    drawn: Frame,
    after: Viewer,
) -> (of: Seq<int>)
    requires
        before.draws(maths, viewport, drawn, after),
        before.can_draw(),
    ensures
        ({
            let stars = before.visible_stars@;
            let instances = drawn.stars.instances@;
            let pose = if before.camera_detached {
                Camera {
                    position: before.observer,
                    orientation: before.observer_orientation,
                    fov_y: before.camera.fov_y,
                }
            } else {
                before.camera
            };
            let (eye, seen) = (before.camera.position, pose.position);
            let view = pose.sky_projection(maths, aspect_of(viewport));
            let limit = before.view.mag_limit;
            &&& of.len() == instances.len()
            &&& forall|i: int|
                0 <= i < of.len() ==> 0 <= #[trigger] of[i] < stars.len() && is_shown_by(
                    maths,
                    stars[of[i]],
                    eye,
                    seen,
                    limit,
                    instances[i],
                ) && is_selected(maths, stars[of[i]], eye, seen, view, limit)
            &&& forall|i: int, j: int| 0 <= i < j < of.len() ==> #[trigger] of[i] < #[trigger] of[j]
            &&& forall|j: int|
                0 <= j < stars.len() && is_selected(
                    maths,
                    #[trigger] stars[j],
                    eye,
                    seen,
                    view,
                    limit,
                ) ==> of.contains(j)
            &&& drawn.stars.view_proj == before.camera.sky_projection(maths, aspect_of(viewport))
            &&& drawn.stars.viewport == viewport
        }),
{
    let seen = before.observing();
    lemma_instances(
        maths,
        before.visible_stars@,
        before.camera.position,
        seen.position,
        seen.sky_projection(maths, aspect_of(viewport)),
        before.view.mag_limit,
    )
}

/// No visible star is within a meter of `eye`.
pub open spec fn keeps_clear(stars: Seq<VisibleStar>, eye: GalacticCoord) -> bool {
    forall|j: int|
        0 <= j < stars.len() ==> !(#[trigger] stars[j]).star.pos.distance(eye).less(
            Double { bits: ONE },
        )
}

/// Wherever a detached camera flies, a frame shows the same stars, in the same order, with the
/// same colors and intensities: only the directions are those from where it is.
pub proof fn law_detached_camera_moves_the_directions_alone<
    M: Fn(Elementary, Double, Double) -> Double,
>(
    maths: M,
    here: Viewer,
    there: Viewer,
    viewport: [Single; 2],
    a: Frame,
    b: Frame,
    after_a: Viewer,
    after_b: Viewer,
) -> (of: Seq<int>)
    requires
        here.draws(maths, viewport, a, after_a),
        there.draws(maths, viewport, b, after_b),
        here.can_draw(),
        there.can_draw(),
        here.camera_detached,
        there.camera_detached,
        there.visible_stars@ == here.visible_stars@,
        there.observer == here.observer,
        there.observer_orientation == here.observer_orientation,
        there.camera.fov_y == here.camera.fov_y,
        there.view.mag_limit == here.view.mag_limit,
        keeps_clear(here.visible_stars@, here.camera.position),
        keeps_clear(here.visible_stars@, there.camera.position),
    ensures
        ({
            let (p, q) = (a.stars.instances@, b.stars.instances@);
            let stars = here.visible_stars@;
            &&& of.len() == p.len()
            &&& p.len() == q.len()
            &&& forall|i: int| 0 <= i < p.len() ==> {
                &&& 0 <= #[trigger] of[i] < stars.len()
                &&& p[i].color == q[i].color
                &&& p[i].intensity == q[i].intensity
                &&& points_from(p[i].dir@, here.camera.position, stars[of[i]].star.pos)
                &&& points_from(q[i].dir@, there.camera.position, stars[of[i]].star.pos)
            }
        }),
{
    let stars = here.visible_stars@;
    let x = law_frames_show_stars_from_the_camera(maths, here, viewport, a, after_a);
    let y = law_frames_show_stars_from_the_camera(maths, there, viewport, b, after_b);
    let pose = here.observing();
    let view = pose.sky_projection(maths, aspect_of(viewport));
    let limit = here.view.mag_limit;
    assert forall|j: int| 0 <= j < stars.len() implies is_selected(
        maths,
        #[trigger] stars[j],
        here.camera.position,
        pose.position,
        view,
        limit,
    ) == is_selected(
        maths,
        stars[j],
        there.camera.position,
        pose.position,
        view,
        limit,
    ) by {}
    assert forall|i: int| 0 <= i < x.len() implies y.contains(#[trigger] x[i]) by {
        assert(is_selected(
            maths,
            stars[x[i]],
            there.camera.position,
            pose.position,
            view,
            limit,
        ));
    }
    assert forall|i: int| 0 <= i < y.len() implies x.contains(#[trigger] y[i]) by {
        assert(is_selected(
            maths,
            stars[y[i]],
            here.camera.position,
            pose.position,
            view,
            limit,
        ));
    }
    lemma_same_order(x, y);
    x
}

/// Two increasing sequences with the same members are the same.
proof fn lemma_same_order(x: Seq<int>, y: Seq<int>)
    requires
        forall|i: int, j: int| 0 <= i < j < x.len() ==> #[trigger] x[i] < #[trigger] x[j],
        forall|i: int, j: int| 0 <= i < j < y.len() ==> #[trigger] y[i] < #[trigger] y[j],
        forall|i: int| 0 <= i < x.len() ==> y.contains(#[trigger] x[i]),
        forall|i: int| 0 <= i < y.len() ==> x.contains(#[trigger] y[i]),
    ensures
        x == y,
    decreases x.len(),
{
    if x.len() == 0 {
        if y.len() > 0 {
            assert(x.contains(y[0]));
        }
        assert(x =~= y);
    } else {
        assert(y.contains(x[0]));
        let (m, n) = (x.len() - 1, y.len() - 1);
        assert(y.contains(x[m]) && x.contains(y[n]));
        let i = choose|i: int| 0 <= i < y.len() && y[i] == x[m];
        let j = choose|j: int| 0 <= j < x.len() && x[j] == y[n];
        assert(x[m] == y[n]);
        let (p, q) = (x.drop_last(), y.drop_last());
        assert forall|k: int| 0 <= k < p.len() implies q.contains(#[trigger] p[k]) by {
            assert(p[k] == x[k]);
            let l = choose|l: int| 0 <= l < y.len() && y[l] == x[k];
            assert(x[k] < x[m]);
            assert(q[l] == p[k]);
        }
        assert forall|k: int| 0 <= k < q.len() implies p.contains(#[trigger] q[k]) by {
            assert(q[k] == y[k]);
            let l = choose|l: int| 0 <= l < x.len() && x[l] == y[k];
            assert(y[k] < y[n]);
            assert(p[l] == q[k]);
        }
        lemma_same_order(p, q);
        assert(x =~= p.push(x[m]));
        assert(y =~= q.push(y[n]));
    }
}

} // verus!
