//! Octree wireframe overlay.
use vstd::prelude::*;

use crate::coord::GalacticCoord;
use crate::ieee::{Double, Single};
use crate::maths::{reliable, Elementary};
use crate::node::NodeKey;
use crate::octree::Galaxy;
use crate::params::{GalaxyParams, HALF, ONE, ZERO};
use crate::render::colors::{color_at, depth_color};
use crate::render::camera::Camera;
use crate::render::projection::{narrow, narrowed, Projection};
use crate::vector::Vector;

verus! {

/// Per-instance data for one octree node cube.
///
/// `center_rel` is the cube center relative to the camera, computed with a floating origin and
/// narrowed only at this point: its magnitude is bounded by the node's own distance from the
/// camera rather than by absolute galactic coordinates.
#[derive(Clone, Copy, PartialEq, Eq, Debug)]
pub struct WireInstanceRaw {
    pub center_rel: [Single; 3],
    pub half_size: Single,
    pub color: [Single; 4],
}

/// The ends of an edge of the cube from -1 to 1: the twelve edges in the order in which lines
/// are drawn, each end by the bits of its corner.
///
/// Corner 0 is `(-1, -1, -1)`; the lowest bit raises x, the next y, the third z.
pub open spec fn cube_edge(i: int) -> (int, int) {
    if i == 0 {
        (0, 1)
    } else if i == 1 {
        (1, 3)
    } else if i == 2 {
        (3, 2)
    } else if i == 3 {
        (2, 0)
    } else if i == 4 {
        (4, 5)
    } else if i == 5 {
        (5, 7)
    } else if i == 6 {
        (7, 6)
    } else if i == 7 {
        (6, 4)
    } else if i == 8 {
        (0, 4)
    } else if i == 9 {
        (1, 5)
    } else if i == 10 {
        (3, 7)
    } else {
        (2, 6)
    }
}

/// A coordinate of a cube corner: plus one where the bit is set, else minus one.
pub open spec fn corner_coordinate(bit: int) -> Single {
    if bit == 1 {
        Single { bits: 0x3f80_0000 /* 1.0 */ }
    } else {
        Single { bits: 0xbf80_0000 /* -1.0 */ }
    }
}

/// A corner of the cube from -1 to 1.
pub open spec fn cube_corner(c: int) -> [Single; 3] {
    [corner_coordinate(c % 2), corner_coordinate((c / 2) % 2), corner_coordinate(c / 4)]
}

fn corner(c: usize) -> (r: [Single; 3])
    requires
        c < 8,
    ensures
        r == cube_corner(c as int),
{
    let low: Single = Single { bits: 0xbf80_0000 /* -1.0 */ };
    let high: Single = Single { bits: 0x3f80_0000 /* 1.0 */ };
    [
        if c % 2 == 1 {
            high
        } else {
            low
        },
        if (c / 2) % 2 == 1 {
            high
        } else {
            low
        },
        if c / 4 == 1 {
            high
        } else {
            low
        },
    ]
}

/// The shared cube mesh: every node reuses these vertices, only translated and scaled per
/// instance.
pub fn cube_mesh() -> (r: Vec<[Single; 3]>)
    ensures
        r.len() == 24,
        forall|i: int|
            0 <= i < 12 ==> r@[2 * i] == cube_corner((#[trigger] cube_edge(i)).0) && r@[2 * i + 1]
                == cube_corner(cube_edge(i).1),
{
    let ends: [usize; 24] = [
        0, 1, 1, 3, 3, 2, 2, 0, 4, 5, 5, 7, 7, 6, 6, 4, 0, 4, 1, 5, 3, 7, 2, 6,
    ];
    let mut verts: Vec<[Single; 3]> = Vec::new();
    let mut i: usize = 0;
    while i < 24
        invariant
            i <= 24,
            verts.len() == i,
            forall|j: int| 0 <= j < 24 ==> #[trigger] ends@[j] < 8,
            forall|j: int| 0 <= j < i ==> #[trigger] verts@[j] == cube_corner(ends@[j] as int),
        decreases 24 - i,
    {
        assert(ends@[i as int] < 8);
        verts.push(corner(ends[i]));
        i = i + 1;
    }
    assert forall|k: int| 0 <= k < 12 implies verts@[2 * k] == cube_corner(
        (#[trigger] cube_edge(k)).0,
    ) && verts@[2 * k + 1] == cube_corner(cube_edge(k).1) by {
        assert(verts@[2 * k] == cube_corner(ends@[2 * k] as int));
        assert(verts@[2 * k + 1] == cube_corner(ends@[2 * k + 1] as int));
    }
    verts
}

/// The camera seen from the min corner of a node.
pub open spec fn seen_from_corner(params: GalaxyParams, key: NodeKey, camera: GalacticCoord) -> Vector {
    camera.relative(params.corner_position(key))
}

/// The instance of a node: its center relative to the camera, half its edge, and its color.
#[verifier::opaque]
pub open spec fn wire_instance(params: GalaxyParams, key: NodeKey, camera: GalacticCoord) -> WireInstanceRaw {
    let half = params.node_size(key.depth).product(Double { bits: HALF });
    WireInstanceRaw {
        center_rel: narrowed(
            Vector::even(half).difference(seen_from_corner(params, key, camera)),
        ),
        half_size: half.narrowed(),
        color: color_at(key.depth),
    }
}

/// The farther of the two ends of a cube along one axis, from the camera at `rel`.
pub open spec fn farther(rel: Double, size: Double) -> Double {
    rel.magnitude().larger(rel.difference(size).magnitude())
}

/// The distance from the camera to the farthest corner of a node.
pub open spec fn far_distance(params: GalaxyParams, key: NodeKey, camera: GalacticCoord) -> Double {
    let rel = seen_from_corner(params, key, camera);
    let size = params.node_size(key.depth);
    Vector {
        x: farther(rel.x, size),
        y: farther(rel.y, size),
        z: farther(rel.z, size),
    }.norm()
}

/// The distance to the nearest node, at least one meter each.
pub open spec fn nearest_node(params: GalaxyParams, nodes: Seq<NodeKey>, camera: GalacticCoord) -> Double
    decreases nodes.len(),
{
    if nodes.len() == 0 {
        Double { bits: 0x7ff0_0000_0000_0000 /* inf */ }
    } else {
        nearest_node(params, nodes.drop_last(), camera).smaller(
            params.near_distance(nodes.last(), camera).larger(Double { bits: ONE }),
        )
    }
}

/// The distance to the farthest corner of all nodes.
pub open spec fn farthest_node(params: GalaxyParams, nodes: Seq<NodeKey>, camera: GalacticCoord) -> Double
    decreases nodes.len(),
{
    if nodes.len() == 0 {
        Double { bits: ZERO }
    } else {
        farthest_node(params, nodes.drop_last(), camera).larger(
            far_distance(params, nodes.last(), camera),
        )
    }
}

/// The near and far planes that bracket geometry from `min_near` to `max_far` meters: near
/// inside the closest, far outside the farthest, and never too close to each other.
pub open spec fn bracket(min_near: Double, max_far: Double) -> (Double, Double) {
    let near = min_near.product(Double { bits: 0x3f84_7ae1_47ae_147b /* 0.01 */ }).larger(Double { bits: ONE });
    (
        near,
        max_far.product(Double { bits: 0x3ff0_cccc_cccc_cccd /* 1.05 */ }).sum(Double { bits: 0x4024_0000_0000_0000 /* 10.0 */ }).larger(
            near.product(Double { bits: 0x408f_4000_0000_0000 /* 1000.0 */ }),
        ),
    )
}

/// The near and far planes that bracket geometry from `min_near` to `max_far` meters.
pub fn bracket_planes(min_near: Double, max_far: Double) -> (r: (Double, Double))
    ensures
        r == bracket(min_near, max_far),
{
    let near: Double = min_near.times(Double { bits: 0x3f84_7ae1_47ae_147b /* 0.01 */ }).max(Double { bits: ONE });
    let far: Double = max_far.times(Double { bits: 0x3ff0_cccc_cccc_cccd /* 1.05 */ }).plus(Double { bits: 0x4024_0000_0000_0000 /* 10.0 */ }).max(
        near.times(Double { bits: 0x408f_4000_0000_0000 /* 1000.0 */ }),
    );
    (near, far)
}

/// The nodes can be measured from `camera`.
pub open spec fn nodes_measurable(params: GalaxyParams, nodes: Seq<NodeKey>, camera: GalacticCoord) -> bool {
    forall|i: int|
        0 <= i < nodes.len() ==> (#[trigger] nodes[i]).depth < 64 && camera.measurable_from(
            params.corner_position(nodes[i]),
        )
}

/// The farther of the two ends of a cube along one axis.
fn farther_end(rel: Double, size: Double) -> (r: Double)
    ensures
        r == farther(rel, size),
{
    rel.abs().max(rel.minus(size).abs())
}

/// The projection of the nodes: its planes bracket them; without nodes it changes nothing.
pub open spec fn wire_projection<M: Fn(Elementary, Double, Double) -> Double>(
    maths: M,
    params: GalaxyParams,
    nodes: Seq<NodeKey>,
    camera: Camera,
    aspect: Double,
) -> Projection {
    if nodes.len() == 0 {
        Projection::unchanged()
    } else {
        let (near, far) = bracket(
            nearest_node(params, nodes, camera.position),
            farthest_node(params, nodes, camera.position),
        );
        camera.projected(maths, aspect, near, far)
    }
}

/// The instances of the nodes, in order.
pub open spec fn wire_instances(
    params: GalaxyParams,
    nodes: Seq<NodeKey>,
    camera: GalacticCoord,
) -> Seq<WireInstanceRaw> {
    Seq::new(nodes.len(), |i: int| wire_instance(params, nodes[i], camera))
}

/// The instance of a node, the distance to the node, at least one meter, and the distance to its
/// farthest corner.
fn outline(galaxy: &Galaxy, key: NodeKey, cam: GalacticCoord) -> (r: (
    WireInstanceRaw,
    Double,
    Double,
))
    requires
        key.depth < 64,
        cam.measurable_from(galaxy.params.corner_position(key)),
    ensures
        r.0 == wire_instance(galaxy.params, key, cam),
        r.1 == galaxy.params.near_distance(key, cam).larger(Double { bits: ONE }),
        r.2 == far_distance(galaxy.params, key, cam),
{
    reveal(wire_instance);
    let (min_m, size): (Vector, Double) = galaxy.node_bounds(key);
    // Floating origin at the box's min corner: center - camera = size / 2 - rel.
    let origin: GalacticCoord = GalacticCoord::from_meters_f64(min_m);
    let rel: Vector = cam.relative_f64(origin);
    let half: Double = size.times(Double { bits: HALF });
    let center_rel: Vector = Vector::splat(half).minus(rel);
    let near: Double = galaxy.node_near_dist(key, cam).max(Double { bits: ONE });
    // Farthest cube corner: per axis, the farther of the two ends.
    let far_pt: Vector = Vector::new(
        farther_end(rel.x, size),
        farther_end(rel.y, size),
        farther_end(rel.z, size),
    );
    let instance: WireInstanceRaw = WireInstanceRaw {
        center_rel: narrow(center_rel),
        half_size: half.to_single(),
        color: depth_color(key.depth),
    };
    (instance, near, far_pt.length())
}

/// Build per-node instance data (camera-relative) plus the frame's view-projection matrix.
///
/// Each node's center is computed relative to the camera, with a floating origin at the cube's
/// min corner, and only narrowed once its magnitude is already bounded by the node's own
/// distance. The projection encodes only camera rotation and dynamic near and far planes that
/// bracket the nodes.
pub fn build_wire_instances<M: Fn(Elementary, Double, Double) -> Double>(
    maths: &M,
    galaxy: &Galaxy,
    nodes: &[NodeKey],
    camera: &Camera,
    aspect: Double,
) -> (r: (Vec<WireInstanceRaw>, Projection))
    requires
        reliable(*maths),
        nodes_measurable(galaxy.params, nodes@, camera.position),
    ensures
        r.0@ == wire_instances(galaxy.params, nodes@, camera.position),
        r.1 == wire_projection(*maths, galaxy.params, nodes@, *camera, aspect),
{
    if nodes.len() == 0 {
        return (Vec::new(), Projection::identity());
    }
    let cam: GalacticCoord = camera.position;
    let mut min_near: Double = Double { bits: 0x7ff0_0000_0000_0000 /* inf */ };
    let mut max_far: Double = Double { bits: ZERO };
    let mut instances: Vec<WireInstanceRaw> = Vec::with_capacity(nodes.len());
    let mut i: usize = 0;
    assert(nodes@.take(0) =~= Seq::empty());
    while i < nodes.len()
        invariant
            i <= nodes.len(),
            nodes_measurable(galaxy.params, nodes@, cam),
            instances@ == wire_instances(galaxy.params, nodes@.take(i as int), cam),
            min_near == nearest_node(galaxy.params, nodes@.take(i as int), cam),
            max_far == farthest_node(galaxy.params, nodes@.take(i as int), cam),
        decreases nodes.len() - i,
    {
        let key: NodeKey = nodes[i];
        assert(nodes@[i as int].depth < 64);
        assert(nodes@.take(i + 1).drop_last() =~= nodes@.take(i as int));
        let (instance, near, far): (WireInstanceRaw, Double, Double) = outline(galaxy, key, cam);
        min_near = min_near.min(near);
        max_far = max_far.max(far);
        instances.push(instance);
        assert(instances@ =~= wire_instances(galaxy.params, nodes@.take(i + 1), cam));
        i = i + 1;
    }
    assert(nodes@.take(nodes@.len() as int) =~= nodes@);
    let (near, far): (Double, Double) = bracket_planes(min_near, max_far);
    (instances, camera.projection(maths, aspect, near, far))
}

/// Per-frame wireframe data: the visited octree nodes to outline.
pub struct WireFrameInput<'a> {
    /// Galaxy owning the node bounds (params).
    pub galaxy: &'a Galaxy,
    /// Node keys to draw (e.g. the visited list of a traversal).
    pub nodes: &'a [NodeKey],
    /// Camera the lines are projected from.
    pub camera: &'a Camera,
    /// Cap on nodes drawn (bounds the per-frame upload; the most important nodes come first, so
    /// truncation drops the least visible cubes).
    pub max_nodes: usize,
    /// Viewport aspect (width / height).
    pub aspect: Double,
}

impl<'a> WireFrameInput<'a> {
    /// The nodes that are drawn: all of them, or the first `max_nodes`.
    pub open spec fn drawn(self) -> Seq<NodeKey> {
        if self.nodes@.len() > self.max_nodes {
            self.nodes@.take(self.max_nodes as int)
        } else {
            self.nodes@
        }
    }
}

/// What a frame hands to the pass that draws the node wireframe.
pub struct WireCallback {
    pub instances: Vec<WireInstanceRaw>,
    pub view_proj: Projection,
}

impl WireCallback {
    /// Prepare per-frame instance data.
    pub fn new<M: Fn(Elementary, Double, Double) -> Double>(
        maths: &M,
        input: &WireFrameInput<'_>,
    ) -> (r: WireCallback)
        requires
            reliable(*maths),
            nodes_measurable(input.galaxy.params, input.drawn(), input.camera.position),
        ensures
            r.instances@ == wire_instances(
                input.galaxy.params,
                input.drawn(),
                input.camera.position,
            ),
            r.view_proj == wire_projection(
                *maths,
                input.galaxy.params,
                input.drawn(),
                *input.camera,
                input.aspect,
            ),
    {
        let nodes: &[NodeKey] = if input.nodes.len() > input.max_nodes {
            vstd::slice::slice_subrange(input.nodes, 0, input.max_nodes)
        } else {
            input.nodes
        };
        assert(nodes@ =~= input.drawn());
        let (instances, view_proj): (Vec<WireInstanceRaw>, Projection) = build_wire_instances(
            maths,
            input.galaxy,
            nodes,
            input.camera,
            input.aspect,
        );
        WireCallback { instances, view_proj }
    }

    /// Number of node cubes that will be drawn this frame.
    pub fn instance_count(&self) -> (r: usize)
        ensures
            r == self.instances@.len(),
    {
        self.instances.len()
    }
}

} // verus!
