use galaxy::coord::GalacticCoord;
use galaxy::ieee::{Double, Single};
use galaxy::maths::Elementary;
use galaxy::node::NodeKey;
use galaxy::octree::{Galaxy, VisibleStar};
use galaxy::params::{GalaxyParams, Star};
use galaxy::quaternion::Quaternion;
use galaxy::render::buffers::{
    cube_attributes, frustum_attributes, grown_capacity, star_attributes, wire_attributes,
    CUBE_VERTEX_COUNT, INITIAL_INSTANCES,
};
use galaxy::render::camera::Camera;
use galaxy::render::colors::{depth_color, hsv_to_rgb};
use galaxy::render::frustum::{frustum_planes, FrustumCallback, FrustumVertexRaw};
use galaxy::render::projection::Projection;
use galaxy::render::stars::{
    flux_exponent, flux_to_intensity, magnitude_to_intensity, photometric_magnitude, FrameInput,
    StarCallback,
};
use galaxy::render::wire::{
    bracket_planes, build_wire_instances, cube_mesh, WireCallback, WireFrameInput,
    WireInstanceRaw,
};
use galaxy::vector::Vector;
use glam::{DMat4, DQuat, DVec3, Mat4, Vec3, Vec4};

fn d(x: f64) -> Double {
    Double::from_bits(x.to_bits())
}

fn s(x: f32) -> Single {
    Single::from_bits(x.to_bits())
}

fn f(x: Double) -> f64 {
    f64::from_bits(x.to_bits())
}

fn fs(x: Single) -> f32 {
    f32::from_bits(x.to_bits())
}

fn maths(function: Elementary, x: Double, y: Double) -> Double {
    let (a, b) = (f(x), f(y));
    d(match function {
        Elementary::Exp => a.exp(),
        Elementary::Ln => a.ln(),
        Elementary::Log10 => a.log10(),
        Elementary::Sin => a.sin_cos().0,
        Elementary::Cos => a.sin_cos().1,
        Elementary::Tan => a.tan(),
        Elementary::Pow => a.powf(b),
        Elementary::PowSingle => (a as f32).powf(b as f32) as f64,
    })
}

fn plain(v: Vector) -> DVec3 {
    DVec3::new(f(v.x), f(v.y), f(v.z))
}

fn plain_quat(q: Quaternion) -> DQuat {
    DQuat::from_xyzw(f(q.x), f(q.y), f(q.z), f(q.w))
}

fn plain_matrix(p: &Projection) -> Mat4 {
    let column = |c: &[Single; 4]| Vec4::new(fs(c[0]), fs(c[1]), fs(c[2]), fs(c[3]));
    Mat4::from_cols(column(&p.x), column(&p.y), column(&p.z), column(&p.w))
}

fn of_matrix(m: Mat4) -> Projection {
    let column = |c: Vec4| [s(c.x), s(c.y), s(c.z), s(c.w)];
    Projection {
        x: column(m.x_axis),
        y: column(m.y_axis),
        z: column(m.z_axis),
        w: column(m.w_axis),
    }
}

fn camera_at(x: i128, y: i128, z: i128) -> Camera {
    Camera {
        position: GalacticCoord::from_meters_i128(x, y, z),
        ..Default::default()
    }
}

/// 8 m cube (min corner -4..+4), camera 20 m in front along +Z.
fn fixture() -> (Galaxy, NodeKey, Camera) {
    let params = GalaxyParams {
        root_seed: 1,
        universe_size_m: d(8.0),
        total_stars: d(1.0e6),
        max_depth: 8,
    };
    (Galaxy::new(params, 16), NodeKey::root(), camera_at(0, 0, 20))
}

/// The camera looks down -Z with up +Y, so the view matrix is identity and view-space
/// coordinates are recoverable from clip space: x = cx*t*aspect, y = cy*t, z = -w with
/// t = tan(fov/2).
fn to_view(p: [f32; 4], fov_y: f64, aspect: f64) -> DVec3 {
    let t = (fov_y * 0.5).tan();
    DVec3::new(p[0] as f64 * t * aspect, p[1] as f64 * t, -(p[3] as f64))
}

/// The 24 clip-space edge endpoints of one instance as the vertex shader computes them: mesh
/// corner * half_size + center_rel, then the projection.
fn instance_clip_points(inst: &WireInstanceRaw, view_proj: Mat4) -> Vec<[f32; 4]> {
    let center = Vec3::new(
        fs(inst.center_rel[0]),
        fs(inst.center_rel[1]),
        fs(inst.center_rel[2]),
    );
    cube_mesh()
        .iter()
        .map(|corner| {
            let corner = Vec3::new(fs(corner[0]), fs(corner[1]), fs(corner[2]));
            let world = center + corner * fs(inst.half_size);
            let clip = view_proj * world.extend(1.0);
            [clip.x, clip.y, clip.z, clip.w]
        })
        .collect()
}

#[test]
fn wire_instances_preserve_cube_geometry() {
    let (galaxy, key, camera) = fixture();
    let aspect = 1.6;
    let fov_y = f(camera.fov_y);
    let (instances, view_proj) =
        build_wire_instances(&maths, &galaxy, &[key], &camera, d(aspect));
    assert_eq!(instances.len(), 1);

    let pts = instance_clip_points(&instances[0], plain_matrix(&view_proj));
    assert_eq!(pts.len(), 24);
    assert!(pts.iter().all(|p| p[3] > 0.0), "all corners in front");

    // The 12 segments must keep the true edge length (8 m) in view space.
    for i in 0..12 {
        let a = to_view(pts[2 * i], fov_y, aspect);
        let b = to_view(pts[2 * i + 1], fov_y, aspect);
        assert!((a.distance(b) - 8.0).abs() < 1e-2, "edge {i} distorted");
    }

    // Each of the 8 true cube corners must appear among the endpoints. View space is
    // camera-relative (camera at z=+20): world z in {-4, +4} maps to view z in {-24, -16}.
    let corners: Vec<DVec3> = pts.iter().map(|p| to_view(*p, fov_y, aspect)).collect();
    for sx in [-4.0, 4.0] {
        for sy in [-4.0, 4.0] {
            for sz in [-24.0, -16.0] {
                let expected = DVec3::new(sx, sy, sz);
                assert!(
                    corners.iter().any(|c| c.distance(expected) < 1e-2),
                    "corner {expected} missing"
                );
            }
        }
    }
}

#[test]
fn wire_instances_finite_when_camera_inside_cube() {
    let (galaxy, key, _) = fixture();
    let camera = camera_at(0, 0, 0); // inside the root cube
    let (instances, view_proj) = build_wire_instances(&maths, &galaxy, &[key], &camera, d(1.6));
    assert_eq!(instances.len(), 1);
    assert!(instances[0].center_rel.iter().all(|c| fs(*c).is_finite()));
    assert!(fs(instances[0].half_size).is_finite());

    let pts = instance_clip_points(&instances[0], plain_matrix(&view_proj));
    assert!(pts.iter().all(|p| p.iter().all(|c| c.is_finite())));
}

#[test]
fn callback_respects_node_cap() {
    let (galaxy, key, camera) = fixture();
    let input = WireFrameInput {
        galaxy: &galaxy,
        nodes: &[key, key, key, key],
        camera: &camera,
        max_nodes: 2,
        aspect: d(1.6),
    };
    let cb = WireCallback::new(&maths, &input);
    assert_eq!(cb.instance_count(), 2);
}

#[test]
fn empty_node_list_yields_no_instances() {
    let (galaxy, _, camera) = fixture();
    let (instances, _) = build_wire_instances(&maths, &galaxy, &[], &camera, d(1.6));
    assert!(instances.is_empty());
}

#[test]
fn depth_colors_are_distinct_and_stable() {
    // Different depths should get visually distinct colors...
    let c0 = depth_color(0);
    let c1 = depth_color(1);
    let c2 = depth_color(2);
    assert_ne!(c0, c1);
    assert_ne!(c1, c2);
    // ...but the same depth always maps to the same color.
    assert_eq!(depth_color(3), depth_color(3));
    // Alpha stays constant; RGB stays in a valid, finite range.
    for c in [c0, c1, c2] {
        assert!((fs(c[3]) - 0.55).abs() < 1e-6);
        assert!(c[..3].iter().all(|v| (0.0..=1.0).contains(&fs(*v))));
    }
}

fn plain_hsv(h: f32, s: f32, v: f32) -> (f32, f32, f32) {
    let i = (h * 6.0).floor();
    let f = h * 6.0 - i;
    let p = v * (1.0 - s);
    let q = v * (1.0 - f * s);
    let t = v * (1.0 - (1.0 - f) * s);
    match (i as i64).rem_euclid(6) {
        0 => (v, t, p),
        1 => (q, v, p),
        2 => (p, v, t),
        3 => (p, q, v),
        4 => (t, p, v),
        _ => (v, p, q),
    }
}

#[test]
fn colors_agree_with_plain_floating_point() {
    for h in [-1.75f32, -0.1, 0.0, 0.1, 0.2, 0.4, 0.5, 0.7, 0.9, 1.0, 1.3, 1e30, -1e30] {
        let ours = hsv_to_rgb(s(h), s(0.65), s(0.9));
        let theirs = plain_hsv(h, 0.65, 0.9);
        assert_eq!(fs(ours.0).to_bits(), theirs.0.to_bits(), "red of {h}");
        assert_eq!(fs(ours.1).to_bits(), theirs.1.to_bits(), "green of {h}");
        assert_eq!(fs(ours.2).to_bits(), theirs.2.to_bits(), "blue of {h}");
    }
    for depth in 0..=255u8 {
        let hue = (depth as f32 * 0.618_034f32).fract();
        let (r, g, b) = plain_hsv(hue, 0.65, 1.0);
        let ours = depth_color(depth);
        assert_eq!([fs(ours[0]), fs(ours[1]), fs(ours[2])], [r, g, b], "depth {depth}");
    }
}

#[test]
fn not_a_hue_has_the_first_color() {
    let (r, g, b) = hsv_to_rgb(s(f32::NAN), s(0.5), s(1.0));
    assert_eq!(fs(r), 1.0);
    assert!(fs(g).is_nan());
    assert_eq!(fs(b), 0.5);
}

#[test]
fn mesh_has_every_edge_once() {
    let mesh = cube_mesh();
    assert_eq!(mesh.len(), CUBE_VERTEX_COUNT as usize);
    let mut edges: Vec<(Vec<i32>, Vec<i32>)> = Vec::new();
    for i in 0..12 {
        let whole = |c: &[Single; 3]| c.iter().map(|x| fs(*x) as i32).collect::<Vec<i32>>();
        let (a, b) = (whole(&mesh[2 * i]), whole(&mesh[2 * i + 1]));
        let apart = (0..3).filter(|k| a[*k] != b[*k]).count();
        assert_eq!(apart, 1, "edge {i}");
        edges.push(if a < b { (a, b) } else { (b, a) });
    }
    edges.sort();
    edges.dedup();
    assert_eq!(edges.len(), 12);
    // The first edge runs along x at the bottom.
    assert_eq!([fs(mesh[0][0]), fs(mesh[0][1]), fs(mesh[0][2])], [-1.0, -1.0, -1.0]);
    assert_eq!([fs(mesh[1][0]), fs(mesh[1][1]), fs(mesh[1][2])], [1.0, -1.0, -1.0]);
}

#[test]
fn camera_turns_as_rotations_do() {
    let mut camera = camera_at(7, -3, 11);
    let mut q = DQuat::IDENTITY;
    for (yaw, pitch, roll) in [(0.3, -0.2, 0.1), (-1.7, 0.9, 2.5), (0.01, 0.0, -0.4)] {
        camera.rotate(&maths, d(yaw), d(pitch));
        q = (q * DQuat::from_axis_angle(DVec3::Y, yaw) * DQuat::from_axis_angle(DVec3::X, pitch))
            .normalize();
        assert_eq!(plain_quat(camera.orientation), q);
        camera.roll(&maths, d(roll));
        q = (q * DQuat::from_axis_angle(DVec3::NEG_Z, roll)).normalize();
        assert_eq!(plain_quat(camera.orientation), q);
        assert_eq!(plain(camera.forward()), q * DVec3::NEG_Z);
        assert_eq!(plain(camera.right()), q * DVec3::X);
        assert_eq!(plain(camera.up()), q * DVec3::Y);
    }
    assert_eq!(camera.position, GalacticCoord::from_meters_i128(7, -3, 11));
}

#[test]
fn camera_moves_in_its_own_directions() {
    let mut camera = camera_at(1_000, 0, 0);
    camera.rotate(&maths, d(0.8), d(-0.3));
    let local = DVec3::new(0.0, 0.6, -0.8);
    let world = plain_quat(camera.orientation) * local * 5.0e6;
    camera.translate_local(Vector::new(d(local.x), d(local.y), d(local.z)), d(5.0e6));
    let expected = GalacticCoord::from_meters_i128(
        1_000 + world.x.round() as i128,
        world.y.round() as i128,
        world.z.round() as i128,
    );
    assert_eq!(camera.position, expected);
}

#[test]
fn default_camera_looks_down_the_third_axis() {
    let camera = Camera::default();
    assert_eq!(camera.position, GalacticCoord::origin());
    assert_eq!(f(camera.fov_y), 60f64.to_radians());
    assert_eq!(plain(camera.forward()), DVec3::NEG_Z);
    assert_eq!(plain(camera.up()), DVec3::Y);
    assert_eq!(plain(camera.right()), DVec3::X);
}

fn plain_projection(camera: &Camera, aspect: f64, near: f64, far: f64) -> Mat4 {
    let q = plain_quat(camera.orientation);
    let view = DMat4::look_at_rh(DVec3::ZERO, q * DVec3::NEG_Z, q * DVec3::Y);
    let proj = DMat4::perspective_rh(f(camera.fov_y), aspect, near, far);
    (proj * view).as_mat4()
}

#[test]
fn projections_agree_with_plain_matrices() {
    let mut camera = camera_at(0, 0, 0);
    for (yaw, pitch) in [(0.0, 0.0), (0.4, 0.2), (2.9, -1.1)] {
        camera.rotate(&maths, d(yaw), d(pitch));
        for aspect in [1.0, 1.6, 0.5] {
            let sky = camera.view_proj(&maths, d(aspect));
            assert_eq!(plain_matrix(&sky), plain_projection(&camera, aspect, 0.01, 10.0));
            let wide = camera.projection(&maths, d(aspect), d(3.0), d(1.0e20));
            assert_eq!(plain_matrix(&wide), plain_projection(&camera, aspect, 3.0, 1.0e20));
        }
    }
    // The position does not matter.
    let moved = Camera {
        position: GalacticCoord::from_meters_i128(5, 6, 7),
        ..camera
    };
    assert_eq!(moved.view_proj(&maths, d(1.5)), camera.view_proj(&maths, d(1.5)));
    assert_eq!(plain_matrix(&Projection::identity()), Mat4::IDENTITY);
}

#[test]
fn planes_bracket_the_nodes() {
    let (near, far) = bracket_planes(d(16.0), d(25.0));
    assert_eq!((f(near), f(far)), (1.0, 1000.0));
    let (near, far) = bracket_planes(d(1.0e6), d(1.0e12));
    assert_eq!((f(near), f(far)), (1.0e6 * 0.01, 1.0e12 * 1.05 + 10.0));
    // One node, seen from 16 m in front of it.
    let (galaxy, key, camera) = fixture();
    let (_, view_proj) = build_wire_instances(&maths, &galaxy, &[key], &camera, d(1.6));
    assert_eq!(plain_matrix(&view_proj), plain_projection(&camera, 1.6, 1.0, 1000.0));
}

#[test]
fn wire_instances_are_centers_halves_and_colors() {
    let (galaxy, _, camera) = fixture();
    let key = NodeKey::new(1, 1, 0, 1);
    let (instances, _) = build_wire_instances(&maths, &galaxy, &[key], &camera, d(1.6));
    let i = instances[0];
    assert_eq!(
        [fs(i.center_rel[0]), fs(i.center_rel[1]), fs(i.center_rel[2])],
        [2.0, -2.0, 2.0 - 20.0]
    );
    assert_eq!(fs(i.half_size), 2.0);
    assert_eq!(i.color, depth_color(1));
}

#[test]
fn wire_cap_keeps_the_first_nodes() {
    let (galaxy, key, camera) = fixture();
    let kids = key.children();
    let with_cap = |max_nodes: usize| {
        WireCallback::new(
            &maths,
            &WireFrameInput {
                galaxy: &galaxy,
                nodes: &kids,
                camera: &camera,
                max_nodes,
                aspect: d(1.6),
            },
        )
        .instances
    };
    let all = with_cap(100);
    assert_eq!(all.len(), 8);
    assert_eq!(with_cap(8), all);
    assert_eq!(with_cap(3), all[..3].to_vec());
    assert!(with_cap(0).is_empty());
}

fn star(x: i128, y: i128, z: i128, abs_mag: f32, fade: f32) -> VisibleStar {
    VisibleStar {
        star: Star {
            pos: GalacticCoord::from_meters_i128(x, y, z),
            abs_mag: s(abs_mag),
            radius: s(1.0),
            color: [s(1.0), s(0.9), s(0.8)],
        },
        fade: s(fade),
    }
}

/// What one star's instance would be in plain floating point.
fn plain_instance(
    v: &VisibleStar,
    eye: GalacticCoord,
    observer: GalacticCoord,
    view: Mat4,
    mag_limit: f32,
) -> Option<([f32; 3], f32)> {
    let rel = plain(v.star.pos.relative_f64(observer));
    let dist = rel.length();
    if dist < 1.0 {
        return None;
    }
    let dir = (rel / dist).as_vec3();
    let clip = view * dir.extend(1.0);
    if clip.w <= 0.0 {
        return None;
    }
    let inv_w = 1.0 / clip.w;
    if (clip.x * inv_w).abs() > 1.0 + 0.05 || (clip.y * inv_w).abs() > 1.0 + 0.05 {
        return None;
    }
    let d_pc = dist / 3.0856775814913673e16;
    let app_mag = fs(v.star.abs_mag) + 5.0 * (d_pc.log10() as f32 - 1.0);
    let x = (mag_limit - app_mag) * 0.4;
    let flux = 10f32.powf(x.clamp(-4.0, 4.0));
    let intensity = (flux * 0.02).clamp(0.0, 4.0) * fs(v.fade);
    if intensity <= 0.0 {
        return None;
    }
    let rel = plain(v.star.pos.relative_f64(eye));
    let dist = rel.length();
    if dist < 1.0 {
        return None;
    }
    Some(((rel / dist).as_vec3().into(), intensity))
}

fn some_stars() -> Vec<VisibleStar> {
    let mut stars = Vec::new();
    let far = 400_000_000_000_000_000i128;
    for i in 0..40i128 {
        let (x, y, z) = (i * 97 % 41 - 20, i * 31 % 37 - 18, i * 53 % 43 - 30);
        stars.push(star(x * far, y * far, z * far, (i % 13) as f32 - 2.0, 0.025 * (i + 1) as f32));
    }
    // At the observer, at the camera, and without weight.
    stars.push(star(0, 0, 0, 1.0, 1.0));
    stars.push(star(50, 0, 0, 1.0, 1.0));
    stars.push(star(0, 0, -far, 1.0, 0.0));
    stars
}

#[test]
fn star_instances_agree_with_plain_floating_point() {
    let stars = some_stars();
    let camera = camera_at(50, 0, 0);
    let observer = camera_at(0, 0, 0);
    let view = observer.view_proj(&maths, d(1.6));
    let frame = FrameInput {
        stars: &stars,
        camera: &camera,
        mag_limit: s(9.0),
    };
    let sky = camera.view_proj(&maths, d(1.6));
    let cb = StarCallback::new(
        &maths,
        &frame,
        sky,
        observer.position,
        view,
        [s(1280.0), s(800.0)],
        s(2.0),
    );
    let expected: Vec<([f32; 3], f32)> = stars
        .iter()
        .filter_map(|v| {
            plain_instance(v, camera.position, observer.position, plain_matrix(&view), 9.0)
        })
        .collect();
    assert!(expected.len() > 3 && expected.len() < stars.len());
    assert_eq!(cb.instance_count() as usize, expected.len());
    for (ours, (dir, intensity)) in cb.instances.iter().zip(&expected) {
        assert_eq!([fs(ours.dir[0]), fs(ours.dir[1]), fs(ours.dir[2])], *dir);
        assert_eq!(fs(ours.intensity), *intensity);
        assert_eq!(fs(ours.core_px), 0.6);
        assert_eq!(ours.color, [s(1.0), s(0.9), s(0.8)]);
    }
    assert_eq!(cb.view_proj, sky);
    assert_eq!(cb.viewport, [s(1280.0), s(800.0)]);
    assert_eq!(fs(cb.px_scale), 2.0);
}

#[test]
fn camera_does_not_select_stars() {
    let stars = some_stars();
    let observer = camera_at(0, 0, 0);
    let view = observer.view_proj(&maths, d(1.6));
    let from = |x: i128| {
        let camera = camera_at(x, 3, 9);
        let frame = FrameInput {
            stars: &stars,
            camera: &camera,
            mag_limit: s(9.0),
        };
        StarCallback::new(&maths, &frame, view, observer.position, view, [s(8.0), s(8.0)], s(2.0))
            .instances
    };
    let (a, b) = (from(1_000), from(1_000_000_000_000_000_000));
    assert_eq!(a.len(), b.len());
    for (p, q) in a.iter().zip(&b) {
        assert_eq!((p.color, p.intensity, p.core_px), (q.color, q.intensity, q.core_px));
    }
    assert!(a.iter().zip(&b).any(|(p, q)| p.dir != q.dir));
}

#[test]
fn stars_behind_or_beside_the_observer_are_left_out() {
    let view = of_matrix(Mat4::perspective_rh(1.0, 1.0, 0.01, 10.0));
    assert!(view.is_shown([s(0.0), s(0.0), s(-1.0)]));
    assert!(!view.is_shown([s(0.0), s(0.0), s(1.0)]));
    assert!(!view.is_shown([s(1.0), s(0.0), s(-0.1)]));
    assert!(!view.is_shown([s(0.0), s(-1.0), s(-0.1)]));
    // Just outside the edge, within the margin.
    let edge = (0.5f32).tan();
    assert!(view.is_shown([s(edge * 1.04), s(0.0), s(-1.0)]));
    assert!(!view.is_shown([s(edge * 1.06), s(0.0), s(-1.0)]));
}

#[test]
fn intensities_follow_the_flux() {
    // At the limit the flux ratio is one; each 2.5 magnitudes are a factor of ten.
    assert_eq!(fs(magnitude_to_intensity(&maths, s(6.0), s(6.0))), 0.02);
    assert_eq!(fs(flux_exponent(s(3.5), s(6.0))), 1.0);
    assert_eq!(fs(flux_exponent(s(-50.0), s(6.0))), 4.0);
    assert_eq!(fs(flux_exponent(s(50.0), s(6.0))), -4.0);
    assert_eq!(fs(flux_to_intensity(s(1.0e6))), 4.0);
    assert_eq!(fs(flux_to_intensity(s(-1.0))), 0.0);
    assert_eq!(fs(flux_to_intensity(s(10.0))), 10.0f32 * 0.02);
    // Ten parsecs show the absolute magnitude.
    assert_eq!(fs(photometric_magnitude(s(4.83), d(1.0))), 4.83);
    assert_eq!(fs(photometric_magnitude(s(4.0), d(2.0))), 9.0);
}

#[test]
fn frustum_planes_grow_with_the_separation() {
    let ly = 9.4607304725808e15;
    let p = frustum_planes(d(0.0));
    assert_eq!(f(p.far), 20_000.0 * ly);
    assert_eq!(f(p.near), 20_000.0 * ly * 0.01);
    assert_eq!(f(p.proj_near), 20_000.0 * ly * 0.01 * 0.25);
    assert_eq!(f(p.proj_far), 20_000.0 * ly * 5.0);
    let sep = 1.0e22;
    let p = frustum_planes(d(sep));
    assert_eq!(f(p.far), 2.0e22);
    assert_eq!(f(p.proj_far), 2.0e22 * 5.0 + sep);
    assert!(f(p.proj_near) <= f(p.near) && f(p.near) <= f(p.far) && f(p.far) <= f(p.proj_far));
}

#[test]
fn frustum_lines_agree_with_plain_geometry() {
    let mut observer = camera_at(123_456_789, -987_654_321, 555);
    observer.rotate(&maths, d(0.7), d(0.2));
    let mut camera = camera_at(-1_000_000_000_000, 0, 42);
    camera.rotate(&maths, d(-0.3), d(0.1));
    let aspect = 1.7;
    let pose = Some((observer.position, observer.orientation));
    let cb = FrustumCallback::new(&maths, &camera, d(aspect), pose);
    let sep = f(camera.position.distance_meters(observer.position));
    let planes = frustum_planes(d(sep));
    let (near, far) = (f(planes.near), f(planes.far));
    let t = (f(camera.fov_y) * 0.5).tan();
    let corner = |x: f64, y: f64, z: f64| {
        let c = DVec3::new(x * (z * t * aspect), y * (z * t), -z);
        plain(observer.position.relative_f64(camera.position))
            + plain_quat(observer.orientation) * c
    };
    let corners: Vec<DVec3> = [near, far]
        .iter()
        .flat_map(|z| {
            [(-1.0, -1.0), (1.0, -1.0), (1.0, 1.0), (-1.0, 1.0)]
                .iter()
                .map(|(x, y)| corner(*x, *y, *z))
                .collect::<Vec<DVec3>>()
        })
        .collect();
    let edges = [
        (0, 1),
        (1, 2),
        (2, 3),
        (3, 0),
        (4, 5),
        (5, 6),
        (6, 7),
        (7, 4),
        (0, 4),
        (1, 5),
        (2, 6),
        (3, 7),
    ];
    let at = |v: &FrustumVertexRaw| [fs(v.pos_rel[0]), fs(v.pos_rel[1]), fs(v.pos_rel[2])];
    assert_eq!(cb.vertices.len(), 24);
    for (i, (a, b)) in edges.iter().enumerate() {
        let (p, q): ([f32; 3], [f32; 3]) =
            (corners[*a].as_vec3().into(), corners[*b].as_vec3().into());
        assert_eq!(at(&cb.vertices[2 * i]), p, "edge {i}");
        assert_eq!(at(&cb.vertices[2 * i + 1]), q, "edge {i}");
    }
    assert_eq!(cb.vertices[0].color, [s(1.0), s(0.65), s(0.2), s(0.85)]);
    let expected = plain_projection(&camera, aspect, f(planes.proj_near), f(planes.proj_far));
    assert_eq!(plain_matrix(&cb.view_proj), expected);
}

#[test]
fn no_pose_draws_no_frustum() {
    let camera = camera_at(1, 2, 3);
    let cb = FrustumCallback::new(&maths, &camera, d(1.5), None);
    assert!(cb.vertices.is_empty());
    let planes = frustum_planes(d(0.0));
    let expected = plain_projection(&camera, 1.5, f(planes.proj_near), f(planes.proj_far));
    assert_eq!(plain_matrix(&cb.view_proj), expected);
}

#[test]
fn buffers_grow_to_powers_of_two() {
    assert_eq!(grown_capacity(INITIAL_INSTANCES, 0), None);
    assert_eq!(grown_capacity(INITIAL_INSTANCES, 4096), None);
    for needed in [4097u64, 5000, 8191, 8192, 8193, 1 << 40, (1 << 40) + 1] {
        assert_eq!(grown_capacity(4096, needed), Some(needed.next_power_of_two()));
    }
    assert_eq!(grown_capacity(0, 1), Some(1));
}

#[test]
fn attributes_follow_the_layout_of_the_data() {
    let offsets: Vec<u64> = star_attributes().iter().map(|a| a.offset).collect();
    assert_eq!(offsets, [0, 12, 24, 28]);
    let offsets: Vec<u64> = frustum_attributes().iter().map(|a| a.offset).collect();
    assert_eq!(offsets, [0, 12]);
    let offsets: Vec<u64> = wire_attributes().iter().map(|a| a.offset).collect();
    assert_eq!(offsets, [0, 12, 16]);
    assert_eq!(cube_attributes()[0].location, 0);
    let locations: Vec<u32> = wire_attributes().iter().map(|a| a.location).collect();
    assert_eq!(locations, [1, 2, 3]);
}

#[test]
fn drawn_stars_have_unit_directions_and_bounded_intensities() {
    let mut stars = some_stars();
    // As bright as can be, nearby.
    stars.push(star(3, -1, -40_000, -30.0, 1.0));
    let observer = camera_at(0, 0, 0);
    let view = observer.view_proj(&maths, d(1.6));
    let camera = camera_at(50, 0, 0);
    let frame = FrameInput {
        stars: &stars,
        camera: &camera,
        mag_limit: s(9.0),
    };
    let cb =
        StarCallback::new(&maths, &frame, view, observer.position, view, [s(8.0), s(8.0)], s(2.0));
    assert!(cb.instances.len() > 3);
    for i in &cb.instances {
        let length: f64 = i.dir.iter().map(|&x| (fs(x) as f64).powi(2)).sum();
        assert!((length - 1.0).abs() < 1.0 / 1_048_576.0, "length {length}");
        let intensity = fs(i.intensity);
        assert!(intensity > 0.0 && intensity <= 4.0, "intensity {intensity}");
    }
    assert!(cb.instances.iter().any(|i| fs(i.intensity) == 4.0));
}

#[test]
fn stars_at_hand_are_not_drawn() {
    let observer = camera_at(0, 0, 0);
    let view = observer.view_proj(&maths, d(1.6));
    let drawn = |z: i128, eye: i128| {
        let stars = vec![star(0, 0, z, 1.0, 1.0)];
        let camera = camera_at(0, 0, eye);
        let frame = FrameInput {
            stars: &stars,
            camera: &camera,
            mag_limit: s(9.0),
        };
        StarCallback::new(&maths, &frame, view, observer.position, view, [s(8.0), s(8.0)], s(2.0))
            .instances
            .len()
    };
    assert_eq!(drawn(-1, 0), 1);
    assert_eq!(drawn(0, 5), 0);
    assert_eq!(drawn(-7, -7), 0);
    assert_eq!(drawn(-7, -6), 1);
}
