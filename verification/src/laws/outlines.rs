//! Laws of the overlays: the outlined nodes and the observer's frustum.
use vstd::arithmetic::power2::*;
use vstd::prelude::*;

use crate::coord::{whole_meters, Fixed, GalacticCoord};
use crate::ieee::accuracy::{lemma_difference_relative, lemma_narrowed_relative, size};
use crate::ieee::bounds::{lemma_whole_within, within};
use crate::ieee::convert::double_of_int;
use crate::ieee::{Double, Single};
use crate::laws::coord::law_rounding_is_within_half_a_meter;
use crate::laws::directions::lemma_int_is_close;
use crate::laws::lengths::lemma_extent_of_int;
use crate::laws::places::{is_spacious, lemma_edge, lemma_half, lemma_side};
use crate::laws::space::lemma_range;
use crate::maths::Elementary;
use crate::node::NodeKey;
use crate::params::{GalaxyParams, HALF};
use crate::render::colors::color_at;
use crate::render::wire::{seen_from_corner, wire_instance, WireInstanceRaw};
use crate::viewer::{Frame, Viewer};
use crate::vector::Vector;

verus! {

/// A number is the coordinate of the center of the cells with index `i` at `depth`, seen from a
/// camera at `cam` meters: up to one part in `2^22`, a few meters, and one part in `2^48` of the
/// universe.
pub open spec fn is_center(params: GalaxyParams, depth: u8, i: u64, cam: int, x: Single) -> bool {
    let (s, z, u) = (
        params.universe_size_m.units(),
        params.node_size(depth).units(),
        pow2(1074) as int,
    );
    let exact = 2 * (i * z) + z - s - 2 * (cam * u);
    &&& x.finite()
    &&& z * pow2(depth as nat) == s
    &&& size(2 * (x.units() * pow2(925)) - exact) * pow2(48) <= size(exact) * pow2(26) + s + u
        * pow2(50)
}

/// One axis of the center of a node.
proof fn lemma_center(params: GalaxyParams, depth: u8, i: u64, cam: int)
    requires
        is_spacious(params),
        depth < 64,
        i < pow2(depth as nat),
        within(params.universe_size_m, 118),
        -(pow2(118) as int) <= cam <= pow2(118),
    ensures
        ({
            let half = params.node_size(depth).product(Double { bits: HALF });
            let corner = Fixed::of(whole_meters(params.side(depth, i))).value();
            is_center(
                params,
                depth,
                i,
                cam,
                half.difference(double_of_int(cam - corner)).narrowed(),
            )
        }),
{
    let (s, z, u, n) = (
        params.universe_size_m.units(),
        params.node_size(depth).units(),
        pow2(1074) as int,
        pow2(depth as nat),
    );
    let side = params.side(depth, i);
    let m = whole_meters(side);
    lemma2_to64();
    lemma2_to64_rest();
    lemma_pow2_pos(1074);
    lemma_edge(params, depth);
    lemma_side(params, depth, i);
    lemma_pow2_pos(depth as nat);
    assert(z <= s) by (nonlinear_arith)
        requires
            z * n == s,
            n > 0,
            z > 0,
    ;
    if depth < 63 {
        lemma_pow2_strictly_increases(depth as nat, 63);
    }
    lemma_pow2_adds(63, 1011);
    lemma_pow2_strictly_increases(1000, 1011);
    lemma_pow2_strictly_increases(1194, 1500);
    assert(z >= pow2(1011)) by (nonlinear_arith)
        requires
            z * n == s,
            s >= pow2(1074),
            pow2(63) * pow2(1011) == pow2(1074),
            0 < n <= pow2(63),
            z > 0,
    ;
    lemma_half(params.node_size(depth));
    let half = params.node_size(depth).product(Double { bits: HALF });
    let h = half.units();
    // The corner, in whole meters.
    lemma_pow2_adds(1, 1192);
    lemma_whole_within(side, 119);
    lemma_pow2_adds(1, 118);
    lemma_pow2_adds(1, 119);
    lemma_range();
    lemma_pow2_strictly_increases(120, 127);
    Fixed::lemma_of(m);
    law_rounding_is_within_half_a_meter(side);
    let c = side.units();
    let mu = m * u;
    // The camera, seen from the corner.
    let d = cam - m;
    let rel = double_of_int(d);
    lemma_int_is_close(d);
    lemma_extent_of_int(d);
    let r = rel.units();
    let du = d * u;
    assert(du == cam * u - mu) by (nonlinear_arith)
        requires
            du == d * u,
            d == cam - m,
            mu == m * u,
    ;
    assert(size(d) * pow2(1074) == size(du)) by (nonlinear_arith)
        requires
            du == d * u,
            u == pow2(1074),
            u > 0,
    ;
    assert(d < 0 ==> du < 0 && r <= 0) by (nonlinear_arith)
        requires
            du == d * u,
            u > 0,
            d < 0 ==> r <= 0,
    ;
    assert(d >= 0 ==> du >= 0 && r >= 0) by (nonlinear_arith)
        requires
            du == d * u,
            u > 0,
            d >= 0 ==> r >= 0,
    ;
    assert(size(r - du) * pow2(53) <= size(du));
    lemma_pow2_adds(120, 1074);
    lemma_pow2_adds(1, 1194);
    lemma_pow2_strictly_increases(1195, 2000);
    assert(size(du) <= pow2(1194)) by (nonlinear_arith)
        requires
            size(d) * pow2(1074) == size(du),
            size(d) <= pow2(120),
            pow2(120) * pow2(1074) == pow2(1194),
    ;
    lemma_pow2_adds(2, 1192);
    lemma_pow2_pos(1192);
    lemma_pow2_strictly_increases(53, 1194);
    lemma_difference_relative(half, rel);
    let v = half.difference(rel);
    let y = v.units();
    lemma_pow2_adds(270, 925);
    lemma_narrowed_relative(v);
    let x = v.narrowed().units() * pow2(925);
    lemma_pow2_adds(149, 925);
    lemma_pow2_pos(925);
    lemma_pow2_strictly_increases(24, 149);
    assert(pow2(24) * pow2(925) <= u) by (nonlinear_arith)
        requires
            pow2(24) <= pow2(149),
            pow2(149) * pow2(925) == u,
            pow2(925) > 0,
    ;
    let exact = 2 * (i * z) + z - s - 2 * (cam * u);
    let iz = i * z;
    assert(2 * c - (2 * iz - s) >= -s && 2 * c - (2 * iz - s) <= s);
    lemma_center_sum(s, z, u, h, c, mu, r, du, y, x, iz, cam * u);
}

/// The magnitude of a sum.
proof fn lemma_triangle(a: int, b: int)
    ensures
        size(a + b) <= size(a) + size(b),
        size(a - b) <= size(a) + size(b),
        size(2 * a) == 2 * size(a),
        size(-a) == size(a),
{
}

/// The errors of the steps add up to little.
proof fn lemma_center_sum(
    s: int,
    z: int,
    u: int,
    h: int,
    c: int,
    mu: int,
    r: int,
    du: int,
    y: int,
    x: int,
    iz: int,
    cu: int,
)
    requires
        0 < z <= s,
        u > 0,
        size(2 * h - z) * 0x20_0000_0000_0000 <= 2 * z,
        size(2 * c - (2 * iz - s)) * 0x2_0000_0000_0000 <= s,
        2 * size(mu - c) <= u,
        du == cu - mu,
        size(r - du) * 0x20_0000_0000_0000 <= size(du),
        size(y - (h - r)) * 0x20_0000_0000_0000 <= size(h - r),
        size(x - y) * 0x100_0000 <= size(y) + u,
    ensures
        size(2 * x - (2 * iz + z - s - 2 * cu)) * 0x1_0000_0000_0000 <= size(
            2 * iz + z - s - 2 * cu,
        ) * 0x400_0000 + s + u * 0x4_0000_0000_0000,
{
    let exact = 2 * iz + z - s - 2 * cu;
    let (e1, e2, e3, e4) = (2 * h - z, 2 * c - (2 * iz - s), mu - c, r - du);
    let t = e1 + e2 + 2 * e3 - 2 * e4;
    let w = h - r;
    let (e5, e6) = (y - w, x - y);
    lemma_steps(s, z, u, exact, e1, e2, e3, e4, e5, e6, w, du, y);
    assert(2 * x - exact == 2 * e6 + 2 * e5 + t);
}

proof fn lemma_steps(
    s: int,
    z: int,
    u: int,
    exact: int,
    e1: int,
    e2: int,
    e3: int,
    e4: int,
    e5: int,
    e6: int,
    w: int,
    du: int,
    y: int,
)
    requires
        0 < z <= s,
        u > 0,
        size(e1) * 0x20_0000_0000_0000 <= 2 * z,
        size(e2) * 0x2_0000_0000_0000 <= s,
        2 * size(e3) <= u,
        size(e4) * 0x20_0000_0000_0000 <= size(du),
        size(e5) * 0x20_0000_0000_0000 <= size(w),
        size(e6) * 0x100_0000 <= size(y) + u,
        2 * du == z - exact - e2 - 2 * e3,
        2 * w == exact + (e1 + e2 + 2 * e3 - 2 * e4),
        y == w + e5,
    ensures
        size(2 * e6 + 2 * e5 + (e1 + e2 + 2 * e3 - 2 * e4)) * 0x1_0000_0000_0000 <= size(exact)
            * 0x400_0000 + s + u * 0x4_0000_0000_0000,
{
    let t = e1 + e2 + 2 * e3 - 2 * e4;
    lemma_triangle(e1, e2);
    lemma_triangle(e3, e4);
    lemma_triangle(e4, e3);
    lemma_triangle(e1 + e2, 2 * e3);
    lemma_triangle(e1 + e2 + 2 * e3, 2 * e4);
    lemma_triangle(z - exact - e2, 2 * e3);
    lemma_triangle(z - exact, e2);
    lemma_triangle(z, exact);
    lemma_triangle(du, 0);
    lemma_triangle(exact, t);
    lemma_triangle(w, e5);
    lemma_triangle(y, 0);
    lemma_triangle(e5, 0);
    lemma_triangle(e6, 0);
    lemma_triangle(2 * e6, 2 * e5);
    lemma_triangle(2 * e6 + 2 * e5, t);
    let (n1, n2, n3, n4, n5, n6) = (
        size(e1),
        size(e2),
        2 * size(e3),
        2 * size(e4),
        2 * size(e5),
        2 * size(e6),
    );
    lemma_little(
        s,
        z,
        u,
        size(exact),
        n1,
        n2,
        n3,
        n4,
        size(t),
        size(2 * w),
        n5,
        n6,
        size(2 * y),
        size(2 * du),
    );
}

proof fn lemma_little(
    s: int,
    z: int,
    u: int,
    e: nat,
    a1: nat,
    a2: nat,
    a3: nat,
    a4: nat,
    t: nat,
    w: nat,
    b: nat,
    f: nat,
    y: nat,
    d: nat,
)
    requires
        0 < z <= s,
        u > 0,
        a1 * 0x20_0000_0000_0000 <= 2 * z,
        a2 * 0x2_0000_0000_0000 <= s,
        a3 <= u,
        d <= z + e + a2 + a3,
        a4 * 0x20_0000_0000_0000 <= d,
        t <= a1 + a2 + a3 + a4,
        w <= e + t,
        b * 0x20_0000_0000_0000 <= w,
        y <= w + b,
        f * 0x100_0000 <= y + 2 * u,
    ensures
        (f + b + t) * 0x1_0000_0000_0000 <= e * 0x400_0000 + s + u * 0x4_0000_0000_0000,
{
    assert(t * 0x2_0000_0000_0000 <= e + 2 * s + u * 0x2_0000_0000_0001);
    assert(w * 0x2_0000_0000_0000 <= e * 0x2_0000_0000_0001 + 2 * s + u * 0x2_0000_0000_0001);
}

/// An instance outlines a node, seen from `camera`: its center, half its edge, and the color of
/// its depth.
pub open spec fn outlines(
    params: GalaxyParams,
    key: NodeKey,
    camera: GalacticCoord,
    i: WireInstanceRaw,
) -> bool {
    let z = params.node_size(key.depth).units();
    &&& is_center(params, key.depth, key.ix, camera.x.value(), i.center_rel@[0])
    &&& is_center(params, key.depth, key.iy, camera.y.value(), i.center_rel@[1])
    &&& is_center(params, key.depth, key.iz, camera.z.value(), i.center_rel@[2])
    &&& i.half_size.finite()
    &&& size(2 * (i.half_size.units() * pow2(925)) - z) * pow2(22) <= z + pow2(1024)
    &&& i.color == color_at(key.depth)
}

/// The instance of a node outlines it.
proof fn lemma_outlines(params: GalaxyParams, key: NodeKey, camera: GalacticCoord)
    requires
        is_spacious(params),
        within(params.universe_size_m, 118),
        key.is_down_to(63),
        is_near_home(camera),
    ensures
        outlines(params, key, camera, wire_instance(params, key, camera)),
{
    reveal(wire_instance);
    lemma_center(params, key.depth, key.ix, camera.x.value());
    lemma_center(params, key.depth, key.iy, camera.y.value());
    lemma_center(params, key.depth, key.iz, camera.z.value());
    let edge = params.node_size(key.depth);
    let (s, z, n) = (params.universe_size_m.units(), edge.units(), pow2(key.depth as nat));
    lemma_edge(params, key.depth);
    lemma2_to64();
    lemma2_to64_rest();
    lemma_pow2_pos(key.depth as nat);
    assert(z <= s) by (nonlinear_arith)
        requires
            z * n == s,
            n > 0,
            z > 0,
    ;
    if key.depth < 63 {
        lemma_pow2_strictly_increases(key.depth as nat, 63);
    }
    lemma_pow2_adds(63, 1011);
    lemma_pow2_strictly_increases(1000, 1011);
    lemma_pow2_strictly_increases(1194, 1500);
    assert(z >= pow2(1011)) by (nonlinear_arith)
        requires
            z * n == s,
            s >= pow2(1074),
            pow2(63) * pow2(1011) == pow2(1074),
            0 < n <= pow2(63),
            z > 0,
    ;
    lemma_half(edge);
    let half = edge.product(Double { bits: HALF });
    lemma_pow2_adds(270, 925);
    lemma_pow2_strictly_increases(1194, 1195);
    lemma_narrowed_relative(half);
    lemma_pow2_adds(25, 925);
    lemma_pow2_adds(1, 950);
    lemma_pow2_adds(24, 925);
    lemma_pow2_strictly_increases(951, 1024);
    lemma_pow2_pos(925);
    let (h, x) = (half.units(), half.narrowed().units() * pow2(925));
    assert(2 * (half.narrowed().units() * pow2(925)) == 2 * x);
    let w = wire_instance(params, key, camera);
    let rel = Vector::even(half).difference(seen_from_corner(params, key, camera));
    assert(w.center_rel@ =~= seq![rel.x.narrowed(), rel.y.narrowed(), rel.z.narrowed()]);
}

/// A position within 2^118 meters of the origin on each axis.
pub open spec fn is_near_home(p: GalacticCoord) -> bool {
    &&& -(pow2(118) as int) <= p.x.value() <= pow2(118)
    &&& -(pow2(118) as int) <= p.y.value() <= pow2(118)
    &&& -(pow2(118) as int) <= p.z.value() <= pow2(118)
}

/// A frame outlines the nodes where that is asked for, from the first visited one on and as many
/// as the limit allows, each as it lies around the camera, be that detached or not.
pub proof fn law_frames_outline_the_visited_nodes<M: Fn(Elementary, Double, Double) -> Double>(
    maths: M,
    before: Viewer,
    viewport: [Single; 2],
    drawn: Frame,
    after: Viewer,
)
    requires
        before.draws(maths, viewport, drawn, after),
        is_spacious(before.galaxy.params),
        within(before.galaxy.params.universe_size_m, 118),
        is_near_home(before.camera.position),
        forall|i: int|
            0 <= i < before.visible_nodes@.len() ==> (#[trigger] before.visible_nodes@[i]).is_down_to(
                63,
            ),
    ensures
        (drawn.wire is Some) == before.show_nodes,
        drawn.wire matches Some(w) ==> {
            &&& w.instances@.len() == if before.visible_nodes@.len() < before.max_wire_nodes {
                before.visible_nodes@.len()
            } else {
                before.max_wire_nodes as nat
            }
            &&& forall|i: int|
                0 <= i < w.instances@.len() ==> outlines(
                    before.galaxy.params,
                    before.visible_nodes@[i],
                    before.camera.position,
                    #[trigger] w.instances@[i],
                )
        },
{
    if drawn.wire is Some {
        let w = drawn.wire->0;
        assert forall|i: int| 0 <= i < w.instances@.len() implies outlines(
            before.galaxy.params,
            before.visible_nodes@[i],
            before.camera.position,
            #[trigger] w.instances@[i],
        ) by {
            assert(before.outlined()[i] == before.visible_nodes@[i]);
            lemma_outlines(
                before.galaxy.params,
                before.visible_nodes@[i],
                before.camera.position,
            );
        }
    }
}

/// A frame draws a frustum where that is asked for and the camera is detached, and no lines
/// otherwise: the twelve edges of what the observer's pose sees, which follow it and not the way
/// the camera looks.
pub proof fn law_frames_draw_the_observers_frustum<M: Fn(Elementary, Double, Double) -> Double>(
    maths: M,
    here: Viewer,
    there: Viewer,
    viewport: [Single; 2],
    a: Frame,
    b: Frame,
    after_a: Viewer,
    after_b: Viewer,
)
    requires
        here.draws(maths, viewport, a, after_a),
        there.draws(maths, viewport, b, after_b),
        here.show_frustums,
        there.show_frustums,
        here.camera_detached,
        there.observer == here.observer,
        there.observer_orientation == here.observer_orientation,
        there.camera.position == here.camera.position,
        there.camera.fov_y == here.camera.fov_y,
    ensures
        a.frustum is Some,
        b.frustum is Some,
        a.frustum->0.vertices@.len() == 24,
        there.camera_detached ==> b.frustum->0.vertices@ == a.frustum->0.vertices@,
        !there.camera_detached ==> b.frustum->0.vertices@.len() == 0,
{
}

} // verus!
