use galaxy::coord::{GalacticCoord, METERS_PER_AU, METERS_PER_LIGHT_YEAR};
use galaxy::ieee::{Double, Single};
use galaxy::maths::Elementary;
use galaxy::octree::{Galaxy, TraverseStats, ViewParams};
use galaxy::params::GalaxyParams;
use galaxy::quaternion::Quaternion;
use galaxy::render::camera::Camera;
use galaxy::viewer::{
    frame_time, frames_per_second, in_light_years, readable_speed, scale_speed, viewport_aspect,
    Controls, SpeedUnit, Viewer,
};
use glam::{DQuat, DVec3};

fn d(x: f64) -> Double {
    Double::from_bits(x.to_bits())
}

fn s(x: f32) -> Single {
    Single::from_bits(x.to_bits())
}

fn f(x: Double) -> f64 {
    f64::from_bits(x.to_bits())
}

fn fs(x: Single) -> f32 {
    f32::from_bits(x.to_bits())
}

fn maths(function: Elementary, x: Double, y: Double) -> Double {
    let (a, b) = (f(x), f(y));
    d(match function {
        Elementary::Exp => a.exp(),
        Elementary::Ln => a.ln(),
        Elementary::Log10 => a.log10(),
        Elementary::Sin => a.sin_cos().0,
        Elementary::Cos => a.sin_cos().1,
        Elementary::Tan => a.tan(),
        Elementary::Pow => a.powf(b),
        Elementary::PowSingle => (a as f32).powf(b as f32) as f64,
    })
}

fn plain_quat(q: Quaternion) -> DQuat {
    DQuat::from_xyzw(f(q.x), f(q.y), f(q.z), f(q.w))
}

fn idle() -> Controls {
    Controls {
        look_x: s(0.0),
        look_y: s(0.0),
        dt: d(0.016),
        boost: false,
        slow: false,
        roll_left: false,
        roll_right: false,
        forward: false,
        back: false,
        left: false,
        right: false,
        rise: false,
        sink: false,
        more_stars: false,
        fewer_stars: false,
        scroll: s(0.0),
    }
}

/// A viewer of a small galaxy, whose scene is quick to build.
fn small() -> Viewer {
    let mut viewer = Viewer::new();
    let params = GalaxyParams {
        root_seed: 3,
        universe_size_m: d(1.0e18),
        total_stars: d(2.0e6),
        max_depth: 8,
    };
    viewer.galaxy = Galaxy::new(params, 512);
    viewer.camera.position = GalacticCoord::from_meters_i128(1_000, 2_000, 3_000);
    viewer.view.mag_limit = s(14.0);
    viewer.view.max_nodes = 200;
    viewer
}

fn light_year() -> f64 {
    f64::from_bits(METERS_PER_LIGHT_YEAR)
}

#[test]
fn viewer_starts_inside_the_disk() {
    let v = Viewer::new();
    let start = GalacticCoord::from_light_years_vec(d(8_000.0), d(0.0), d(200.0));
    assert_eq!((v.camera.position, v.observer, v.scene_anchor), (start, start, start));
    assert_eq!(v.camera.orientation, Camera::default().orientation);
    assert_eq!(f(v.camera.fov_y), 60f64.to_radians());
    assert_eq!(f(v.speed_m_per_s), 500.0 * light_year());
    assert_eq!(v.last_stats, TraverseStats::default());
    assert_eq!(v.view.max_nodes, ViewParams::default().max_nodes);
    assert!(v.scene_dirty && !v.camera_detached && !v.show_nodes && !v.show_frustums);
    assert!(v.visible_stars.is_empty() && v.visible_nodes.is_empty());
    assert_eq!((v.last_instances, v.max_wire_nodes), (0, 4096));
}

#[test]
fn idle_controls_change_nothing() {
    let mut v = small();
    v.scene_dirty = false;
    let (camera, speed) = (v.camera, v.speed_m_per_s);
    v.handle_input(&maths, &idle());
    assert_eq!(v.camera, camera);
    assert_eq!(v.speed_m_per_s, speed);
    assert!(!v.scene_dirty);
    // Opposite keys cancel.
    let both = Controls {
        forward: true,
        back: true,
        left: true,
        right: true,
        rise: true,
        sink: true,
        ..idle()
    };
    v.handle_input(&maths, &both);
    assert_eq!(v.camera, camera);
}

#[test]
fn dragging_looks_around() {
    let mut v = small();
    let drag = Controls {
        look_x: s(12.5),
        look_y: s(-3.0),
        ..idle()
    };
    v.handle_input(&maths, &drag);
    let expected = (DQuat::IDENTITY
        * DQuat::from_axis_angle(DVec3::Y, -12.5f32 as f64 * 0.0035)
        * DQuat::from_axis_angle(DVec3::X, 3.0f32 as f64 * 0.0035))
    .normalize();
    assert_eq!(plain_quat(v.camera.orientation), expected);
    // Rolling one way and back.
    let roll = Controls {
        roll_left: true,
        roll_right: true,
        dt: d(0.1),
        ..idle()
    };
    v.handle_input(&maths, &roll);
    let left = (expected * DQuat::from_axis_angle(DVec3::NEG_Z, -1.5 * 0.1)).normalize();
    let right = (left * DQuat::from_axis_angle(DVec3::NEG_Z, 1.5 * 0.1)).normalize();
    assert_eq!(plain_quat(v.camera.orientation), right);
}

#[test]
fn keys_move_the_camera() {
    let go = |controls: Controls| {
        let mut v = small();
        v.camera.position = GalacticCoord::origin();
        v.speed_m_per_s = d(1.0e6);
        v.handle_input(&maths, &controls);
        let p = v.camera.position;
        (p.x.raw(), p.y.raw(), p.z.raw())
    };
    let second = Controls { dt: d(1.0), ..idle() };
    assert_eq!(go(Controls { forward: true, ..second }), (0, 0, -1_000_000));
    assert_eq!(go(Controls { back: true, ..second }), (0, 0, 1_000_000));
    assert_eq!(go(Controls { left: true, ..second }), (-1_000_000, 0, 0));
    assert_eq!(go(Controls { right: true, ..second }), (1_000_000, 0, 0));
    assert_eq!(go(Controls { rise: true, ..second }), (0, 1_000_000, 0));
    assert_eq!(go(Controls { sink: true, ..second }), (0, -1_000_000, 0));
    assert_eq!(go(Controls { rise: true, boost: true, ..second }), (0, 20_000_000, 0));
    assert_eq!(go(Controls { rise: true, slow: true, ..second }), (0, 50_000, 0));
    assert_eq!(
        go(Controls { rise: true, boost: true, slow: true, ..second }),
        (0, 1_000_000, 0)
    );
    // Two keys at once are no faster than one.
    let diagonal = (1.0e6 / 2f64.sqrt()).round() as i128;
    assert_eq!(
        go(Controls { right: true, back: true, ..second }),
        (diagonal, 0, diagonal)
    );
}

#[test]
fn brackets_tweak_the_magnitude_limit() {
    let mut v = small();
    v.scene_dirty = false;
    v.handle_input(&maths, &Controls { more_stars: true, ..idle() });
    assert_eq!(fs(v.view.mag_limit), 14.5);
    assert!(v.scene_dirty);
    v.scene_dirty = false;
    v.handle_input(&maths, &Controls { fewer_stars: true, ..idle() });
    assert_eq!(fs(v.view.mag_limit), 14.0);
    assert!(v.scene_dirty);
}

#[test]
fn wheel_scales_the_speed() {
    let mut v = small();
    v.speed_m_per_s = d(100.0);
    v.handle_input(&maths, &Controls { scroll: s(40.0), ..idle() });
    assert_eq!(f(v.speed_m_per_s), 100.0 * 1.15f64.powf(1.0));
    v.handle_input(&maths, &Controls { scroll: s(-80.0), ..idle() });
    assert_eq!(f(v.speed_m_per_s), 100.0 * 1.15f64.powf(1.0) * 1.15f64.powf(-2.0));
    // It stays in range.
    assert_eq!(f(scale_speed(d(1.0), d(1.0e-9))), 0.1);
    assert_eq!(f(scale_speed(d(1.0e30), d(10.0))), 1.0e5 * light_year());
}

#[test]
fn attached_observer_follows_the_camera() {
    let mut v = small();
    v.advance(&maths, &Controls { forward: true, ..idle() });
    assert_eq!(v.observer, v.camera.position);
    assert_eq!(v.observer_orientation, v.camera.orientation);
    assert!(!v.scene_dirty);
    assert_eq!(v.scene_anchor, v.observer);
    assert_eq!(v.last_stats.stars_visible, v.visible_stars.len());
    assert_eq!(v.last_stats.nodes_visited, v.visible_nodes.len());
    assert!(!v.visible_stars.is_empty());
}

#[test]
fn scene_is_rebuilt_only_when_it_is_stale() {
    let mut v = small();
    v.follow();
    v.maybe_rebuild_scene(&maths);
    let built = v.last_stats;
    assert!(built.cache_misses > 0);
    // Nothing changed: nothing is traversed.
    v.maybe_rebuild_scene(&maths);
    assert_eq!(v.last_stats, built);
    // A small motion is not enough, a large one is. The patience is a twentieth of a second.
    v.speed_m_per_s = d(1.0e14);
    v.camera.position = GalacticCoord::from_meters_i128(1_000 + 4_900_000_000_000, 2_000, 3_000);
    v.follow();
    v.maybe_rebuild_scene(&maths);
    assert_eq!(v.last_stats, built);
    v.camera.position = GalacticCoord::from_meters_i128(1_000 + 5_100_000_000_000, 2_000, 3_000);
    v.follow();
    v.maybe_rebuild_scene(&maths);
    assert!(v.last_stats.cache_hits > 0);
    assert_eq!(v.scene_anchor, v.observer);
    // At low speed it is a million kilometers.
    v.speed_m_per_s = d(1.0);
    let anchor = v.scene_anchor;
    v.observer = GalacticCoord::from_meters_i128(
        anchor.x.raw() + 999_999_999,
        anchor.y.raw(),
        anchor.z.raw(),
    );
    v.maybe_rebuild_scene(&maths);
    assert_eq!(v.scene_anchor, anchor);
    v.observer = GalacticCoord::from_meters_i128(
        anchor.x.raw() + 1_000_000_001,
        anchor.y.raw(),
        anchor.z.raw(),
    );
    v.maybe_rebuild_scene(&maths);
    assert_eq!(v.scene_anchor, v.observer);
    // A tweak is enough by itself.
    v.scene_dirty = true;
    v.maybe_rebuild_scene(&maths);
    assert!(!v.scene_dirty);
    assert_eq!(v.last_stats.cache_misses, 0);
}

#[test]
fn detached_camera_leaves_the_observer_behind() {
    let mut v = small();
    v.advance(&maths, &idle());
    let (position, orientation) = (v.camera.position, v.camera.orientation);
    let shown = v.visible_stars.clone();
    v.set_detached(true);
    for _ in 0..3 {
        v.advance(
            &maths,
            &Controls { forward: true, look_x: s(30.0), roll_left: true, ..idle() },
        );
    }
    assert_ne!(v.camera.position, position);
    assert_ne!(v.camera.orientation, orientation);
    assert_eq!((v.observer, v.observer_orientation), (position, orientation));
    assert_eq!(v.visible_stars, shown);
    // Attaching snaps the camera back.
    v.set_detached(false);
    assert_eq!((v.camera.position, v.camera.orientation), (position, orientation));
    assert!(!v.camera_detached);
}

#[test]
fn frames_hold_what_is_shown() {
    let mut v = small();
    v.advance(&maths, &idle());
    let viewport = [s(1600.0), s(1000.0)];
    let frame = v.frame(&maths, viewport);
    assert!(frame.wire.is_none() && frame.frustum.is_none());
    assert!(!frame.stars.instances.is_empty());
    assert_eq!(v.last_instances as usize, frame.stars.instances.len());
    assert_eq!(frame.stars.view_proj, v.camera.view_proj(&maths, d(1.6f32 as f64)));
    assert_eq!(frame.stars.viewport, viewport);
    assert_eq!(fs(frame.stars.px_scale), 2.0);
    v.show_nodes = true;
    v.show_frustums = true;
    v.max_wire_nodes = 5;
    let frame = v.frame(&maths, viewport);
    assert_eq!(frame.wire.unwrap().instance_count(), 5);
    assert!(frame.frustum.unwrap().vertices.is_empty());
    v.set_detached(true);
    v.handle_input(&maths, &Controls { look_x: s(200.0), ..idle() });
    let moved = v.frame(&maths, viewport);
    assert_eq!(moved.frustum.unwrap().vertices.len(), 24);
    // The selection is the observer's: turning the detached camera does not change it.
    assert_eq!(moved.stars.instances, frame.stars.instances);
    assert_ne!(moved.stars.view_proj, frame.stars.view_proj);
}

#[test]
fn viewports_have_an_aspect() {
    assert_eq!(f(viewport_aspect([s(1280.0), s(800.0)])), (1280.0f32 / 800.0) as f64);
    assert_eq!(f(viewport_aspect([s(300.0), s(0.0)])), 300.0);
}

#[test]
fn frame_times_are_capped() {
    assert_eq!(f(frame_time(s(0.016))), 0.016f32 as f64);
    assert_eq!(f(frame_time(s(3.0))), 0.1f32 as f64);
    assert_eq!(fs(frames_per_second(d(0.02))), 50.0);
    assert_eq!(fs(frames_per_second(d(0.0))), 0.0);
    assert_eq!(fs(frames_per_second(d(-1.0))), 0.0);
}

#[test]
fn speeds_are_shown_in_suitable_units() {
    let (ly, au) = (light_year(), f64::from_bits(METERS_PER_AU));
    let shown = |v: f64| {
        let (number, unit) = readable_speed(d(v));
        format!("{:.*} {}", unit.digits(), f(number), unit.label())
    };
    assert_eq!(shown(500.0 * ly), "500.000 ly/s");
    assert_eq!(shown(0.001 * ly), "0.001 ly/s");
    assert_eq!(shown(2.5 * au), "2.500 AU/s");
    assert_eq!(shown(0.01 * au), "0.010 AU/s");
    assert_eq!(shown(12_345.0), "12.35 km/s");
    assert_eq!(shown(1_000.0), "1.00 km/s");
    assert_eq!(shown(999.994), "999.99 m/s");
    assert_eq!(shown(-5.0), "-5.00 m/s");
    assert_eq!(readable_speed(d(f64::NAN)).1, SpeedUnit::Meters);
}

#[test]
fn meters_read_as_light_years() {
    assert_eq!(f(in_light_years(d(3.0 * light_year()))), 3.0);
}

#[test]
fn checked_frames_refuse_what_would_overflow() {
    let mut v = small();
    let ahead = Controls { forward: true, dt: d(1.0), ..idle() };
    let mut same = small();
    assert!(v.try_advance(&maths, &ahead));
    same.advance(&maths, &ahead);
    assert_eq!(v.camera, same.camera);
    assert_eq!(v.visible_stars, same.visible_stars);
    let viewport = [s(640.0), s(400.0)];
    let (a, b) = (v.try_frame(&maths, viewport).unwrap(), same.frame(&maths, viewport));
    assert_eq!(a.stars.instances, b.stars.instances);
    // A step beyond what a coordinate can hold is not taken.
    v.camera.position = GalacticCoord::from_meters_i128(0, 0, i128::MIN + 5);
    let stuck = v.camera;
    assert!(!v.try_advance(&maths, &ahead));
    assert_eq!(v.camera, stuck);
    // Nor is a cube drawn whose difference to the camera does not fit.
    v.camera.position = GalacticCoord::from_meters_i128(0, 0, i128::MAX);
    assert!(v.try_frame(&maths, viewport).is_some());
    v.show_nodes = true;
    assert!(!v.visible_nodes.is_empty());
    assert!(v.try_frame(&maths, viewport).is_none());
    v.max_wire_nodes = 0;
    assert!(v.try_frame(&maths, viewport).is_some());
    // Nor an observer's frustum.
    v.camera_detached = true;
    v.observer = GalacticCoord::from_meters_i128(0, 0, -2);
    assert!(v.try_frame(&maths, viewport).is_some());
    v.show_frustums = true;
    assert!(v.try_frame(&maths, viewport).is_none());
    v.camera_detached = false;
    v.show_frustums = false;
    v.show_nodes = false;
    // A place that is far away is no hindrance, unless differences to it do not fit.
    v.camera.position = GalacticCoord::from_meters_i128(1 << 126, 0, 0);
    assert!(v.try_advance(&maths, &idle()));
    assert_eq!(v.scene_anchor, v.camera.position);
    assert!(v.try_frame(&maths, viewport).is_some());
    let (shown, stats, limit) = (v.visible_stars.clone(), v.last_stats, v.view.mag_limit);
    v.camera.position = GalacticCoord::from_meters_i128(i128::MAX, 0, 0);
    let more = Controls { more_stars: true, ..idle() };
    assert!(!v.try_advance(&maths, &more));
    assert_eq!(v.visible_stars, shown);
    assert_eq!(v.last_stats, stats);
    assert_eq!(v.view.mag_limit, limit);
    assert!(!v.scene_dirty);
    assert_eq!(v.observer, GalacticCoord::from_meters_i128(1 << 126, 0, 0));
}

#[test]
fn another_view_is_shown_from_the_next_frame() {
    let mut v = small();
    v.advance(&maths, &idle());
    assert!(!v.scene_dirty);
    let view = ViewParams {
        max_nodes: 1,
        ..v.view
    };
    v.set_view(view);
    assert!(v.scene_dirty);
    assert_eq!((v.view.max_nodes, v.view.mag_limit), (1, view.mag_limit));
    v.advance(&maths, &idle());
    assert_eq!(v.last_stats.nodes_visited, 1);
}

#[test]
fn another_galaxy_starts_afresh() {
    let mut v = small();
    v.advance(&maths, &idle());
    let (params, shown, stats) = (v.galaxy.params, v.visible_stars.clone(), v.last_stats);
    // The same galaxy stays as it is.
    v.set_params(params);
    assert_eq!((&v.visible_stars, v.last_stats), (&shown, stats));
    assert!(!v.scene_dirty);
    let other = GalaxyParams {
        root_seed: params.root_seed + 1,
        ..params
    };
    v.scene_anchor = GalacticCoord::origin();
    v.set_params(other);
    assert_eq!(v.galaxy.params.root_seed, other.root_seed);
    assert!(v.visible_stars.is_empty() && v.visible_nodes.is_empty() && v.scene_dirty);
    assert_eq!((v.last_stats, v.scene_anchor), (TraverseStats::default(), v.observer));
    v.advance(&maths, &idle());
    assert_eq!(v.last_stats.cache_hits, 0);
    assert_ne!(v.visible_stars, shown);
}
