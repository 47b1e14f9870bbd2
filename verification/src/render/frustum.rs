//! Observer frustum overlay.
use vstd::prelude::*;

use crate::quaternion::Quaternion;
use crate::render::camera::Camera;
use crate::coord::{GalacticCoord, METERS_PER_LIGHT_YEAR};
use crate::ieee::{Double, Single};
use crate::maths::{evaluate, reliable, value_of, Elementary};
use crate::params::{HALF, ONE, ZERO};
use crate::render::projection::{narrow, narrowed, Projection};
use crate::vector::Vector;

verus! {

/// A vertex of the frustum's lines: its position relative to the camera, and its color.
#[derive(Clone, Copy, PartialEq, Eq, Debug)]
pub struct FrustumVertexRaw {
    pub pos_rel: [Single; 3],
    pub color: [Single; 4],
}

/// The distances of the planes of the drawn frustum and of the projection that draws it.
#[derive(Clone, Copy, PartialEq, Eq, Structural, Debug)]
pub struct FrustumPlanes {
    pub near: Double,
    pub far: Double,
    pub proj_near: Double,
    pub proj_far: Double,
}

/// The planes for a camera that is `sep` meters from the observer. The frustum should read as
/// effectively unbounded: it has a very large baseline span and grows further with the
/// separation. Its geometry lives in galactic meters, so it has a projection of its own.
pub open spec fn planes_at(sep: Double) -> FrustumPlanes {
    let ly = Double { bits: METERS_PER_LIGHT_YEAR };
    let far = sep.product(Double { bits: 0x4000_0000_0000_0000 /* 2.0 */ }).larger((Double { bits: 0x40d3_8800_0000_0000 /* 20000.0 */ }).product(ly));
    let near = far.product(Double { bits: 0x3f84_7ae1_47ae_147b /* 0.01 */ }).larger((Double { bits: 0x3fc9_9999_9999_999a /* 0.2 */ }).product(ly));
    let proj_near = near.product(Double { bits: 0x3fd0_0000_0000_0000 /* 0.25 */ }).larger(Double { bits: ONE });
    FrustumPlanes {
        near,
        far,
        proj_near,
        proj_far: far.product(Double { bits: 0x4014_0000_0000_0000 /* 5.0 */ }).sum(sep).larger(
            proj_near.product(Double { bits: 0x408f_4000_0000_0000 /* 1000.0 */ }),
        ),
    }
}

/// The planes for a camera that is `sep` meters from the observer.
pub fn frustum_planes(sep: Double) -> (r: FrustumPlanes)
    ensures
        r == planes_at(sep),
{
    let ly: Double = Double { bits: METERS_PER_LIGHT_YEAR };
    let far: Double = sep.times(Double { bits: 0x4000_0000_0000_0000 /* 2.0 */ }).max(Double { bits: 0x40d3_8800_0000_0000 /* 20000.0 */ }.times(ly));
    let near: Double = far.times(Double { bits: 0x3f84_7ae1_47ae_147b /* 0.01 */ }).max(Double { bits: 0x3fc9_9999_9999_999a /* 0.2 */ }.times(ly));
    let proj_near: Double = near.times(Double { bits: 0x3fd0_0000_0000_0000 /* 0.25 */ }).max(Double { bits: ONE });
    let proj_far: Double = far.times(Double { bits: 0x4014_0000_0000_0000 /* 5.0 */ }).plus(sep).max(
        proj_near.times(Double { bits: 0x408f_4000_0000_0000 /* 1000.0 */ }),
    );
    FrustumPlanes { near, far, proj_near, proj_far }
}

/// The corner `i` of a frustum in its own directions: the near face and then the far one, each
/// counterclockwise from the lower left. `t` is the tangent of half the vertical angle.
pub open spec fn local_corner(t: Double, aspect: Double, near: Double, far: Double, i: int) -> Vector {
    let z = if i < 4 {
        near
    } else {
        far
    };
    let y = z.product(t);
    let x = y.product(aspect);
    let (right, upper) = (i % 4 == 1 || i % 4 == 2, i % 4 >= 2);
    Vector {
        x: if right {
            x
        } else {
            x.opposite()
        },
        y: if upper {
            y
        } else {
            y.opposite()
        },
        z: z.opposite(),
    }
}

/// The corner at which end `j` of the twelve edges lies: the near face, the far face, the sides.
pub open spec fn edge_end(j: int) -> int {
    let (i, second) = (j / 2, j % 2);
    if i < 4 {
        (i + second) % 4
    } else if i < 8 {
        4 + (i - 4 + second) % 4
    } else {
        i - 8 + 4 * second
    }
}

fn corner(t: Double, aspect: Double, near: Double, far: Double, i: usize) -> (r: Vector)
    requires
        i < 8,
    ensures
        r == local_corner(t, aspect, near, far, i as int),
{
    let z: Double = if i < 4 {
        near
    } else {
        far
    };
    let y: Double = z.times(t);
    let x: Double = y.times(aspect);
    let k: usize = i % 4;
    Vector::new(
        if k == 1 || k == 2 {
            x
        } else {
            x.negated()
        },
        if k >= 2 {
            y
        } else {
            y.negated()
        },
        z.negated(),
    )
}

/// The ends of a frustum's twelve edges, relative to the camera: the frustum of an observer at
/// `origin_rel`. `t` is the tangent of half its vertical angle.
pub open spec fn frustum_lines(
    origin_rel: Vector,
    orientation: Quaternion,
    t: Double,
    aspect: Double,
    near: Double,
    far: Double,
    color: [Single; 4],
) -> Seq<FrustumVertexRaw> {
    Seq::new(
        24,
        |j: int|
            FrustumVertexRaw {
                pos_rel: narrowed(
                    origin_rel.sum(
                        orientation.turned(local_corner(t, aspect, near, far, edge_end(j))),
                    ),
                ),
                color,
            },
    )
}

/// Appends the ends of a frustum's twelve edges, relative to the camera.
pub fn append_frustum_vertices(
    out: &mut Vec<FrustumVertexRaw>,
    origin_rel: Vector,
    orientation: Quaternion,
    t: Double,
    aspect: Double,
    near: Double,
    far: Double,
    color: [Single; 4],
)
    ensures
        final(out)@ == old(out)@ + frustum_lines(
            origin_rel,
            orientation,
            t,
            aspect,
            near,
            far,
            color,
        ),
{
    let ghost before = out@;
    let ghost lines = frustum_lines(origin_rel, orientation, t, aspect, near, far, color);
    let mut j: usize = 0;
    assert(before + lines.take(0) =~= before);
    while j < 24
        invariant
            j <= 24,
            lines == frustum_lines(origin_rel, orientation, t, aspect, near, far, color),
            out@ == before + lines.take(j as int),
        decreases 24 - j,
    {
        let (i, second): (usize, usize) = (j / 2, j % 2);
        let c: usize = if i < 4 {
            (i + second) % 4
        } else if i < 8 {
            4 + (i - 4 + second) % 4
        } else {
            i - 8 + 4 * second
        };
        let placed: Vector = origin_rel.plus(
            orientation.turn(corner(t, aspect, near, far, c)),
        );
        out.push(FrustumVertexRaw { pos_rel: narrow(placed), color });
        assert(out@ =~= before + lines.take(j + 1));
        j = j + 1;
    }
    assert(lines.take(24) =~= lines);
}

/// The color of the observer's frustum.
pub open spec fn frustum_color() -> [Single; 4] {
    [Single { bits: 0x3f80_0000 /* 1.0 */ }, Single { bits: 0x3f26_6666 /* 0.65 */ }, Single { bits: 0x3e4c_cccd /* 0.2 */ }, Single { bits: 0x3f59_999a /* 0.85 */ }]
}

/// The distance between the camera and the observer; none without an observer's pose.
pub open spec fn separation(camera: Camera, pose: Option<(GalacticCoord, Quaternion)>) -> Double {
    match pose {
        Some((origin, _)) => camera.position.distance(origin),
        None => Double { bits: ZERO },
    }
}

/// The lines of the observer's frustum; none without an observer's pose.
pub open spec fn overlay_lines<M: Fn(Elementary, Double, Double) -> Double>(
    maths: M,
    camera: Camera,
    aspect: Double,
    pose: Option<(GalacticCoord, Quaternion)>,
) -> Seq<FrustumVertexRaw> {
    match pose {
        None => Seq::empty(),
        Some((origin, orientation)) => {
            let planes = planes_at(separation(camera, pose));
            frustum_lines(
                origin.relative(camera.position),
                orientation,
                value_of(
                    maths,
                    Elementary::Tan,
                    camera.fov_y.product(Double { bits: HALF }),
                    Double { bits: ZERO },
                ),
                aspect,
                planes.near,
                planes.far,
                frustum_color(),
            )
        },
    }
}

/// The projection that draws the frustum.
pub open spec fn frustum_projection<M: Fn(Elementary, Double, Double) -> Double>(
    maths: M,
    camera: Camera,
    aspect: Double,
    pose: Option<(GalacticCoord, Quaternion)>,
) -> Projection {
    let planes = planes_at(separation(camera, pose));
    camera.projected(maths, aspect, planes.proj_near, planes.proj_far)
}

/// What a frame hands to the pass that draws the frustum.
pub struct FrustumCallback {
    pub vertices: Vec<FrustumVertexRaw>,
    pub view_proj: Projection,
}

impl FrustumCallback {
    /// Build an optional frustum wireframe for debug visualization.
    pub fn new<M: Fn(Elementary, Double, Double) -> Double>(
        maths: &M,
        camera: &Camera,
        aspect: Double,
        frustum_pose: Option<(GalacticCoord, Quaternion)>,
    ) -> (r: FrustumCallback)
        requires
            reliable(*maths),
            frustum_pose matches Some(p) ==> camera.position.measurable_from(p.0)
                && p.0.measurable_from(camera.position),
        ensures
            r.vertices@ == overlay_lines(*maths, *camera, aspect, frustum_pose),
            r.view_proj == frustum_projection(*maths, *camera, aspect, frustum_pose),
    {
        let mut vertices: Vec<FrustumVertexRaw> = Vec::with_capacity(24);
        let sep: Double = match frustum_pose {
            Some((origin, _)) => camera.position.distance_meters(origin),
            None => Double { bits: ZERO },
        };
        let planes: FrustumPlanes = frustum_planes(sep);
        if let Some((origin, orientation)) = frustum_pose {
            let t: Double = evaluate(
                maths,
                Elementary::Tan,
                camera.fov_y.times(Double { bits: HALF }),
                Double { bits: ZERO },
            );
            let color: [Single; 4] = [
                Single { bits: 0x3f80_0000 /* 1.0 */ },
                Single { bits: 0x3f26_6666 /* 0.65 */ },
                Single { bits: 0x3e4c_cccd /* 0.2 */ },
                Single { bits: 0x3f59_999a /* 0.85 */ },
            ];
            append_frustum_vertices(
                &mut vertices,
                origin.relative_f64(camera.position),
                orientation,
                t,
                aspect,
                planes.near,
                planes.far,
                color,
            );
        }
        let view_proj: Projection = camera.projection(
            maths,
            aspect,
            planes.proj_near,
            planes.proj_far,
        );
        FrustumCallback { vertices, view_proj }
    }
}

} // verus!
