//! Laws of what the renderer draws.
use vstd::arithmetic::power2::*;
use vstd::prelude::*;

use crate::coord::{whole_meters, Fixed, GalacticCoord};
use crate::ieee::bounds::{
    lemma_int_within, lemma_power_code, lemma_product_within, lemma_sum_within, lemma_whole_within,
    lemma_within_grows, power_code, within,
};
use crate::ieee::convert::double_of_int;
use crate::ieee::encoding::{code_units, lemma_code_split, Double, Single};
use crate::ieee::exact::lemma_nearest_at_most;
use crate::ieee::single::{lemma_single_format, SINGLE_INF};
use crate::laws::space::{is_central, is_ordinary, lemma_range, lemma_side_within};
use crate::maths::Elementary;
use crate::node::NodeKey;
use crate::octree::VisibleStar;
use crate::params::{GalaxyParams, HALF, ONE};
use crate::render::camera::Camera;
use crate::render::frustum::edge_end;
use crate::render::projection::Projection;
use crate::render::stars::{instance_of, instances_of, intensity_at, InstanceRaw};
use crate::render::wire::{
    corner_coordinate, cube_corner, cube_edge, seen_from_corner, wire_instance,
};
use crate::vector::Vector;

verus! {

/// No star is within a meter of `eye`.
pub open spec fn clear_of(stars: Seq<VisibleStar>, eye: GalacticCoord) -> bool {
    forall|i: int|
        0 <= i < stars.len() ==> !(#[trigger] stars[i]).star.pos.relative(eye).norm().less(
            Double { bits: ONE },
        )
}

/// The same star, seen from another place.
pub open spec fn differ_in_direction(a: InstanceRaw, b: InstanceRaw) -> bool {
    a.color == b.color && a.intensity == b.intensity && a.core_px == b.core_px
}

/// Where the camera is does not decide which stars are drawn, nor how bright: the observer does.
/// A detached camera sees the stars that the observer selected, in other directions.
pub proof fn law_camera_does_not_select_stars<M: Fn(Elementary, Double, Double) -> Double>(
    maths: M,
    stars: Seq<VisibleStar>,
    eye: GalacticCoord,
    other: GalacticCoord,
    observer: GalacticCoord,
    observer_view: Projection,
    mag_limit: Single,
)
    requires
        clear_of(stars, eye),
        clear_of(stars, other),
    ensures
        ({
            let a = instances_of(maths, stars, eye, observer, observer_view, mag_limit);
            let b = instances_of(maths, stars, other, observer, observer_view, mag_limit);
            &&& a.len() == b.len()
            &&& forall|i: int| 0 <= i < a.len() ==> differ_in_direction(#[trigger] a[i], b[i])
        }),
    decreases stars.len(),
{
    if stars.len() > 0 {
        let before = stars.drop_last();
        assert forall|i: int| 0 <= i < before.len() implies #[trigger] before[i] == stars[i] by {}
        assert(clear_of(before, eye) && clear_of(before, other));
        law_camera_does_not_select_stars(
            maths,
            before,
            eye,
            other,
            observer,
            observer_view,
            mag_limit,
        );
        assert(stars[stars.len() - 1] == stars.last());
    }
}

/// Every instance is that of one of the stars, and there are no more instances than stars.
pub proof fn law_instances_are_of_the_stars<M: Fn(Elementary, Double, Double) -> Double>(
    maths: M,
    stars: Seq<VisibleStar>,
    eye: GalacticCoord,
    observer: GalacticCoord,
    observer_view: Projection,
    mag_limit: Single,
)
    ensures
        ({
            let drawn = instances_of(maths, stars, eye, observer, observer_view, mag_limit);
            &&& drawn.len() <= stars.len()
            &&& forall|i: int|
                0 <= i < drawn.len() ==> is_of_some(
                    maths,
                    stars,
                    eye,
                    observer,
                    observer_view,
                    mag_limit,
                    #[trigger] drawn[i],
                )
        }),
    decreases stars.len(),
{
    if stars.len() > 0 {
        let before = stars.drop_last();
        law_instances_are_of_the_stars(maths, before, eye, observer, observer_view, mag_limit);
        let held = instances_of(maths, before, eye, observer, observer_view, mag_limit);
        let drawn = instances_of(maths, stars, eye, observer, observer_view, mag_limit);
        assert forall|i: int| 0 <= i < drawn.len() implies is_of_some(
            maths,
            stars,
            eye,
            observer,
            observer_view,
            mag_limit,
            #[trigger] drawn[i],
        ) by {
            if i < held.len() {
                assert(drawn[i] == held[i]);
                let j = choose|j: int|
                    0 <= j < before.len() && instance_of(
                        maths,
                        #[trigger] before[j],
                        eye,
                        observer,
                        observer_view,
                        mag_limit,
                    ) == Some(held[i]);
                assert(stars[j] == before[j]);
            } else {
                assert(stars[stars.len() - 1] == stars.last());
            }
        }
    }
}

/// `drawn` is the instance of one of the stars.
pub open spec fn is_of_some<M: Fn(Elementary, Double, Double) -> Double>(
    maths: M,
    stars: Seq<VisibleStar>,
    eye: GalacticCoord,
    observer: GalacticCoord,
    observer_view: Projection,
    mag_limit: Single,
    drawn: InstanceRaw,
) -> bool {
    exists|j: int|
        0 <= j < stars.len() && instance_of(
            maths,
            #[trigger] stars[j],
            eye,
            observer,
            observer_view,
            mag_limit,
        ) == Some(drawn)
}

/// The intensity of a flux lies between zero and four.
pub proof fn law_intensity_stays_in_range(flux: Single)
    requires
        !flux.product(Single { bits: 0x3ca3_d70a /* 0.02 */ }).nan(),
    ensures
        (Single { bits: 0x0000_0000 /* 0.0 */ }).at_most(intensity_at(flux)),
        intensity_at(flux).at_most(Single { bits: 0x4080_0000 /* 4.0 */ }),
{
    let four = Single { bits: 0x4080_0000 /* 4.0 */ };
    lemma_single_format();
    assert(0x4080_0000nat / 0x80_0000 == 129 && 0x4080_0000nat % 0x80_0000 == 0);
    lemma_pow2_pos(128);
    assert(four.units() >= 0);
    assert((Single { bits: 0x0000_0000 /* 0.0 */ }).units() == 0);
}

/// The projection of a camera depends on its orientation and its angle, not on its position.
pub proof fn law_projection_ignores_the_position<M: Fn(Elementary, Double, Double) -> Double>(
    maths: M,
    camera: Camera,
    position: GalacticCoord,
    aspect: Double,
    near: Double,
    far: Double,
)
    ensures
        camera.projected(maths, aspect, near, far) == (Camera { position, ..camera }).projected(
            maths,
            aspect,
            near,
            far,
        ),
{
    reveal(Camera::projected);
}

/// The number of axes on which two corners of the cube differ.
pub open spec fn axes_apart(a: int, b: int) -> int {
    (if a % 2 != b % 2 {
        1int
    } else {
        0
    }) + (if (a / 2) % 2 != (b / 2) % 2 {
        1int
    } else {
        0
    }) + (if a / 4 != b / 4 {
        1int
    } else {
        0
    })
}

/// Every line of the cube mesh is an edge: its ends differ on exactly one axis.
pub proof fn law_mesh_lines_are_edges(i: int)
    requires
        0 <= i < 12,
    ensures
        0 <= cube_edge(i).0 < 8,
        0 <= cube_edge(i).1 < 8,
        axes_apart(cube_edge(i).0, cube_edge(i).1) == 1,
{
}

/// No edge of the cube is drawn twice.
pub proof fn law_mesh_lines_are_distinct(i: int, j: int)
    requires
        0 <= i < j < 12,
    ensures
        cube_edge(i) != cube_edge(j),
        cube_edge(i) != (cube_edge(j).1, cube_edge(j).0),
{
}

/// Different corners of the cube have different coordinates.
pub proof fn law_corners_are_distinct(a: int, b: int)
    requires
        0 <= a < b < 8,
    ensures
        cube_corner(a)@ != cube_corner(b)@,
{
    let (p, q) = (cube_corner(a)@, cube_corner(b)@);
    assert(p[0] == corner_coordinate(a % 2) && q[0] == corner_coordinate(b % 2));
    assert(p[1] == corner_coordinate((a / 2) % 2) && q[1] == corner_coordinate((b / 2) % 2));
    assert(p[2] == corner_coordinate(a / 4) && q[2] == corner_coordinate(b / 4));
}

/// Every line of the frustum is an edge: it follows a side of one face or joins the faces.
pub proof fn law_frustum_lines_are_edges(i: int)
    requires
        0 <= i < 12,
    ensures
        ({
            let (a, b) = (edge_end(2 * i), edge_end(2 * i + 1));
            &&& 0 <= a < 8
            &&& 0 <= b < 8
            &&& (a / 4 == b / 4 && (b - a == 1 || a - b == 3)) || b - a == 4
        }),
{
    assert((2 * i) / 2 == i && (2 * i) % 2 == 0);
    assert((2 * i + 1) / 2 == i && (2 * i + 1) % 2 == 1);
}

/// A number within 2^127 stays finite in `binary32`.
proof fn lemma_narrows(x: Double)
    requires
        within(x, 127),
    ensures
        x.narrowed().finite(),
{
    lemma_single_format();
    let n = code_units(x.code(), 52);
    let top = 254 * pow2(23);
    lemma_code_split(253, pow2(23), 23);
    lemma_pow2_adds(23, 253);
    assert(253 * pow2(23) + pow2(23) == top);
    lemma_pow2_adds(276, 925);
    lemma_pow2_pos(925);
    lemma_nearest_at_most(n, pow2(925), 23, SINGLE_INF as nat, top);
}

/// In an ordinary universe every node that is seen from a central position, from inside too, has
/// an instance of finite numbers.
pub proof fn law_wire_instances_are_finite(params: GalaxyParams, key: NodeKey, camera: GalacticCoord, depth: u8)
    requires
        is_ordinary(params),
        is_central(camera),
        depth < 64,
        key.is_down_to(depth),
    ensures
        ({
            let i = wire_instance(params, key, camera);
            &&& i.center_rel@[0].finite()
            &&& i.center_rel@[1].finite()
            &&& i.center_rel@[2].finite()
            &&& i.half_size.finite()
        }),
{
    reveal(wire_instance);
    lemma_side_within(params, key.depth, key.ix);
    lemma_side_within(params, key.depth, key.iy);
    lemma_side_within(params, key.depth, key.iz);
    let half = Double { bits: HALF };
    let size = params.node_size(key.depth);
    let s = 120 - key.depth;
    lemma_power_code(-1);
    assert(half.code() == power_code(-1));
    lemma_product_within(size, s, half, -1);
    let h = size.product(half);
    lemma_within_grows(h, s - 1, 127);
    lemma_within_grows(h, s - 1, 126);
    lemma_narrows(h);
    let min = params.corner(key);
    let rel = seen_from_corner(params, key, camera);
    Fixed::lemma_of(whole_meters(min.x));
    Fixed::lemma_of(whole_meters(min.y));
    Fixed::lemma_of(whole_meters(min.z));
    lemma_seen_within(min.x, camera.x.value());
    lemma_seen_within(min.y, camera.y.value());
    lemma_seen_within(min.z, camera.z.value());
    lemma_sum_within(h, rel.x, 126);
    lemma_sum_within(h, rel.y, 126);
    lemma_sum_within(h, rel.z, 126);
    let center = Vector::even(h).difference(rel);
    lemma_narrows(center.x);
    lemma_narrows(center.y);
    lemma_narrows(center.z);
}

proof fn lemma_seen_within(min: Double, at: int)
    requires
        within(min, 121),
        -(pow2(125) as int) <= at <= pow2(125),
    ensures
        within(double_of_int(at - whole_meters(min)), 126),
{
    lemma_range();
    lemma_whole_within(min, 121);
    lemma_pow2_strictly_increases(121, 125);
    lemma_pow2_unfold(126);
    lemma_int_within(at - whole_meters(min), 126);
}

} // verus!
