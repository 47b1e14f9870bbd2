//! The viewer: galaxy state, camera controls, and what each frame draws.
use vstd::prelude::*;

use crate::cache::CacheKey;
use crate::coord::{GalacticCoord, METERS_PER_AU, METERS_PER_LIGHT_YEAR};
use crate::generate::exp_has_floor;
use crate::ieee::{Double, Single};
use crate::maths::{evaluate, reliable, value_of, Elementary};
use crate::node::NodeKey;
use crate::octree::{Galaxy, TraverseStats, ViewParams, VisibleStar};
use crate::params::{GalaxyParams, Star, ONE, ZERO};
use crate::quaternion::Quaternion;
use crate::render::camera::Camera;
use crate::render::frustum::{frustum_projection, overlay_lines, FrustumCallback};
use crate::render::stars::{instances_of, FrameInput, StarCallback};
use crate::render::wire::{
    nodes_measurable, wire_instances, wire_projection, WireCallback, WireFrameInput,
};
use crate::vector::Vector;

verus! {

/// Nodes whose stars stay cached.
pub const GALAXY_CACHE_CAPACITY: usize = 65_536;

/// What the user does during one frame.
#[derive(Clone, Copy, PartialEq, Eq, Structural, Debug)]
pub struct Controls {
    /// Drag motion over the viewport, in points.
    pub look_x: Single,
    pub look_y: Single,
    /// Frame time in seconds.
    pub dt: Double,
    /// Moves faster.
    pub boost: bool,
    /// Moves slower.
    pub slow: bool,
    pub roll_left: bool,
    pub roll_right: bool,
    pub forward: bool,
    pub back: bool,
    pub left: bool,
    pub right: bool,
    pub rise: bool,
    pub sink: bool,
    /// Raises the magnitude limit.
    pub more_stars: bool,
    /// Lowers the magnitude limit.
    pub fewer_stars: bool,
    /// Wheel motion, in points.
    pub scroll: Single,
}

/// Plus one, minus one, or none where neither or both are asked for.
pub open spec fn axis(minus: bool, plus: bool) -> Double {
    if minus == plus {
        Double { bits: ZERO }
    } else if plus {
        Double { bits: ONE }
    } else {
        Double { bits: 0xbff0_0000_0000_0000 /* -1.0 */ }
    }
}

fn along(minus: bool, plus: bool) -> (r: Double)
    ensures
        r == axis(minus, plus),
{
    if minus == plus {
        Double { bits: ZERO }
    } else if plus {
        Double { bits: ONE }
    } else {
        Double { bits: 0xbff0_0000_0000_0000 /* -1.0 */ }
    }
}

impl Controls {
    /// The speed after the modifiers.
    pub open spec fn pace(self, speed: Double) -> Double {
        let boosted = if self.boost {
            speed.product(Double { bits: 0x4034_0000_0000_0000 /* 20.0 */ })
        } else {
            speed
        };
        if self.slow {
            boosted.product(Double { bits: 0x3fa9_9999_9999_999a /* 0.05 */ })
        } else {
            boosted
        }
    }

    /// Where to move, in the camera's own directions.
    pub open spec fn heading(self) -> Vector {
        Vector {
            x: axis(self.left, self.right),
            y: axis(self.sink, self.rise),
            z: axis(self.forward, self.back),
        }
    }

    /// Some motion is asked for.
    pub open spec fn moves(self) -> bool {
        self.left != self.right || self.sink != self.rise || self.forward != self.back
    }

    /// The viewport is dragged.
    pub open spec fn looks(self) -> bool {
        !self.look_x.equals(Single { bits: 0x0000_0000 /* 0.0 */ }) || !self.look_y.equals(Single { bits: 0x0000_0000 /* 0.0 */ })
    }

    /// The angle, in radians, for a drag of `points`.
    pub open spec fn look_angle(points: Single) -> Double {
        points.opposite().widened().product(Double { bits: 0x3f6c_ac08_3126_e979 /* 0.0035 */ })
    }

    /// The camera after looking around and rolling.
    pub open spec fn turned<M: Fn(Elementary, Double, Double) -> Double>(
        self,
        maths: M,
        camera: Camera,
    ) -> Camera {
        let looked = if self.looks() {
            camera.rotated(maths, Controls::look_angle(self.look_x), Controls::look_angle(self.look_y))
        } else {
            camera
        };
        let left = if self.roll_left {
            looked.rolled(maths, (Double { bits: 0xbff8_0000_0000_0000 /* -1.5 */ }).product(self.dt))
        } else {
            looked
        };
        if self.roll_right {
            left.rolled(maths, (Double { bits: 0x3ff8_0000_0000_0000 /* 1.5 */ }).product(self.dt))
        } else {
            left
        }
    }

    /// The camera after looking around, rolling and moving.
    pub open spec fn steered<M: Fn(Elementary, Double, Double) -> Double>(
        self,
        maths: M,
        camera: Camera,
        speed: Double,
    ) -> Camera {
        let turned = self.turned(maths, camera);
        if self.moves() {
            turned.moved(self.heading().unit(), self.pace(speed).product(self.dt))
        } else {
            turned
        }
    }

    /// The motion ends at coordinates that fit.
    pub open spec fn stays_in_range<M: Fn(Elementary, Double, Double) -> Double>(
        self,
        maths: M,
        camera: Camera,
        speed: Double,
    ) -> bool {
        self.moves() ==> self.turned(maths, camera).can_move(
            self.heading().unit(),
            self.pace(speed).product(self.dt),
        )
    }

    /// The magnitude limit after the tweaks.
    pub open spec fn limited(self, mag_limit: Single) -> Single {
        let half = Single { bits: 0x3f00_0000 /* 0.5 */ };
        let raised = if self.more_stars {
            mag_limit.sum(half)
        } else {
            mag_limit
        };
        if self.fewer_stars {
            raised.difference(half)
        } else {
            raised
        }
    }

    /// The wheel was turned.
    pub open spec fn scrolls(self) -> bool {
        !self.scroll.equals(Single { bits: 0x0000_0000 /* 0.0 */ })
    }

    /// The exponent of the factor by which the wheel changes the speed.
    pub open spec fn wheel(self) -> Double {
        self.scroll.widened().quotient(Double { bits: 0x4044_0000_0000_0000 /* 40.0 */ })
    }

    /// The camera's own speed after the wheel.
    pub open spec fn paced<M: Fn(Elementary, Double, Double) -> Double>(
        self,
        maths: M,
        speed: Double,
    ) -> Double {
        if self.scrolls() {
            scaled_speed(
                speed,
                value_of(
                    maths,
                    Elementary::Pow,
                    Double { bits: 0x3ff2_6666_6666_6666 /* 1.15 */ },
                    self.wheel(),
                ),
            )
        } else {
            speed
        }
    }
}

/// The speed times `factor`, kept between a tenth of a meter and a hundred thousand light-years
/// per second.
pub open spec fn scaled_speed(speed: Double, factor: Double) -> Double {
    speed.product(factor).clamped(
        Double { bits: 0x3fb9_9999_9999_999a /* 0.1 */ },
        (Double { bits: 0x40f8_6a00_0000_0000 /* 1.0e5 */ }).product(Double { bits: METERS_PER_LIGHT_YEAR }),
    )
}

/// The speed times `factor`, kept between a tenth of a meter and a hundred thousand light-years
/// per second.
pub fn scale_speed(speed: Double, factor: Double) -> (r: Double)
    ensures
        r == scaled_speed(speed, factor),
{
    let fastest: Double = Double { bits: 0x40f8_6a00_0000_0000 /* 1.0e5 */ }.times(Double { bits: METERS_PER_LIGHT_YEAR });
    speed.times(factor).clamp(Double { bits: 0x3fb9_9999_9999_999a /* 0.1 */ }, fastest)
}

impl Controls {
    /// Looks around and rolls a camera.
    pub fn turn<M: Fn(Elementary, Double, Double) -> Double>(&self, maths: &M, camera: &mut Camera)
        requires
            reliable(*maths),
        ensures
            *final(camera) == self.turned(*maths, *old(camera)),
    {
        // Look: drag over the viewport rotates the camera.
        let still: Single = Single { bits: 0x0000_0000 /* 0.0 */ };
        if !self.look_x.eq_number(still) || !self.look_y.eq_number(still) {
            let sens: Double = Double { bits: 0x3f6c_ac08_3126_e979 /* 0.0035 */ };
            camera.rotate(
                maths,
                self.look_x.negated().to_double().times(sens),
                self.look_y.negated().to_double().times(sens),
            );
        }
        // Roll, in radians per second.
        if self.roll_left {
            camera.roll(maths, Double { bits: 0xbff8_0000_0000_0000 /* -1.5 */ }.times(self.dt));
        }
        if self.roll_right {
            camera.roll(maths, Double { bits: 0x3ff8_0000_0000_0000 /* 1.5 */ }.times(self.dt));
        }
    }

    /// The motion that is asked for, in the camera's own directions and in meters, if there is
    /// one.
    fn motion(&self, speed: Double) -> (r: Option<(Vector, Double)>)
        ensures
            r is Some <==> self.moves(),
            r matches Some(m) ==> m.0 == self.heading().unit() && m.1 == self.pace(speed).product(
                self.dt,
            ),
    {
        if self.left == self.right && self.sink == self.rise && self.forward == self.back {
            return None;
        }
        let mut pace: Double = speed;
        if self.boost {
            pace = pace.times(Double { bits: 0x4034_0000_0000_0000 /* 20.0 */ });
        }
        if self.slow {
            pace = pace.times(Double { bits: 0x3fa9_9999_9999_999a /* 0.05 */ });
        }
        let local: Vector = Vector::new(
            along(self.left, self.right),
            along(self.sink, self.rise),
            along(self.forward, self.back),
        );
        Some((local.normalize(), pace.times(self.dt)))
    }

    /// Looks around, rolls and moves a camera. `speed` is in meters per second.
    pub fn steer<M: Fn(Elementary, Double, Double) -> Double>(
        &self,
        maths: &M,
        camera: &mut Camera,
        speed: Double,
    )
        requires
            reliable(*maths),
            self.stays_in_range(*maths, *old(camera), speed),
        ensures
            *final(camera) == self.steered(*maths, *old(camera), speed),
    {
        self.turn(maths, camera);
        if let Some((local, distance)) = self.motion(speed) {
            camera.translate_local(local, distance);
        }
    }

    /// Whether the motion ends at coordinates that fit.
    pub fn can_steer<M: Fn(Elementary, Double, Double) -> Double>(
        &self,
        maths: &M,
        camera: &Camera,
        speed: Double,
    ) -> (r: bool)
        requires
            reliable(*maths),
        ensures
            r == self.stays_in_range(*maths, *camera, speed),
    {
        let mut turned: Camera = *camera;
        self.turn(maths, &mut turned);
        match self.motion(speed) {
            Some((local, distance)) => turned.has_room(local, distance),
            None => true,
        }
    }
}

/// Everything the viewer keeps between frames.
pub struct Viewer {
    pub galaxy: Galaxy,
    pub camera: Camera,
    pub view: ViewParams,
    /// Movement speed in meters per second.
    pub speed_m_per_s: Double,
    pub last_stats: TraverseStats,
    /// Cached visible-star set, rebuilt only when the observer moves enough or the view
    /// parameters change.
    pub visible_stars: Vec<VisibleStar>,
    /// Observer position when `visible_stars` was last rebuilt.
    pub scene_anchor: GalacticCoord,
    /// True to force a scene rebuild next frame.
    pub scene_dirty: bool,
    /// Position that drives which stars and octree nodes are generated and visible. Tracks the
    /// camera unless `camera_detached` is true, in which case it stays frozen while the camera
    /// keeps moving and looking freely.
    pub observer: GalacticCoord,
    /// True: the camera can move freely without moving `observer`.
    pub camera_detached: bool,
    /// Frozen orientation associated with `observer` while detached.
    pub observer_orientation: Quaternion,
    /// Instances drawn last frame (for the overlay).
    pub last_instances: u32,
    /// Visited node keys from the last scene rebuild (wireframe overlay source).
    pub visible_nodes: Vec<NodeKey>,
    /// True to draw the visited octree nodes as wireframe cubes.
    pub show_nodes: bool,
    /// True to draw the observer's frustum (in detach mode).
    pub show_frustums: bool,
    /// Cap on wireframe cubes drawn (bounds the per-frame upload).
    pub max_wire_nodes: usize,
}

impl Viewer {
    /// The viewer after the user's input.
    pub open spec fn after_input<M: Fn(Elementary, Double, Double) -> Double>(
        self,
        maths: M,
        controls: Controls,
    ) -> Viewer {
        Viewer {
            camera: controls.steered(maths, self.camera, self.speed_m_per_s),
            view: ViewParams { mag_limit: controls.limited(self.view.mag_limit), ..self.view },
            scene_dirty: self.scene_dirty || controls.more_stars || controls.fewer_stars,
            speed_m_per_s: controls.paced(maths, self.speed_m_per_s),
            ..self
        }
    }

    /// The viewer whose observer is at the camera, unless that is detached.
    pub open spec fn following(self) -> Viewer {
        if self.camera_detached {
            self
        } else {
            Viewer {
                observer: self.camera.position,
                observer_orientation: self.camera.orientation,
                ..self
            }
        }
    }

    /// The viewer with its camera detached, and the observer where the camera is, or with its
    /// camera attached, and back at the observer.
    pub open spec fn detached_as(self, detached: bool) -> Viewer {
        if detached {
            Viewer {
                camera_detached: true,
                observer: self.camera.position,
                observer_orientation: self.camera.orientation,
                ..self
            }
        } else {
            Viewer {
                camera_detached: false,
                camera: Camera {
                    position: self.observer,
                    orientation: self.observer_orientation,
                    ..self.camera
                },
                ..self
            }
        }
    }

    /// How far the observer may go from the anchor before the scene is rebuilt.
    pub open spec fn patience(self) -> Double {
        self.speed_m_per_s.product(Double { bits: 0x3fa9_9999_9999_999a /* 0.05 */ }).larger(Double { bits: 0x41cd_cd65_0000_0000 /* 1.0e9 */ })
    }

    /// The scene has to be rebuilt.
    pub open spec fn is_stale(self) -> bool {
        self.scene_dirty || self.patience().less(self.observer.distance(self.scene_anchor))
            || self.visible_stars@.len() == 0
    }

    /// The scene can be rebuilt where it is stale: nothing overflows.
    pub open spec fn can_rebuild<M: Fn(Elementary, Double, Double) -> Double>(self, maths: M) -> bool {
        &&& self.observer.measurable_from(self.scene_anchor)
        &&& self.is_stale() ==> self.galaxy.walk_fits(maths, self.observer, self.view)
    }

    /// The viewer at the start: somewhere inside the disk, a few thousand light-years from the
    /// center.
    pub fn new() -> (r: Viewer)
        ensures
            r.galaxy.params == GalaxyParams::usual(),
            r.galaxy.entries() == Seq::<(CacheKey, Seq<Star>)>::empty(),
            r.galaxy.capacity() == GALAXY_CACHE_CAPACITY,
            r.camera.position == GalacticCoord::in_light_years(
                Double { bits: 0x40bf_4000_0000_0000 /* 8000.0 */ },
                Double { bits: 0x0000_0000_0000_0000 /* 0.0 */ },
                Double { bits: 0x4069_0000_0000_0000 /* 200.0 */ },
            ),
            r.camera.orientation == Quaternion::still(),
            r.camera.fov_y == (Double { bits: 0x3ff0_c152_382d_7365 /* 1.0471975511965976 */ }),
            r.view == ViewParams::usual(),
            r.speed_m_per_s == (Double { bits: 0x407f_4000_0000_0000 /* 500.0 */ }).product(Double { bits: METERS_PER_LIGHT_YEAR }),
            r.last_stats == TraverseStats::nothing(),
            r.visible_stars@.len() == 0,
            r.scene_anchor == r.camera.position,
            r.scene_dirty,
            r.observer == r.camera.position,
            !r.camera_detached,
            r.observer_orientation == r.camera.orientation,
            r.last_instances == 0,
            r.visible_nodes@.len() == 0,
            !r.show_nodes,
            !r.show_frustums,
            r.max_wire_nodes == 4096,
    {
        let start: GalacticCoord = GalacticCoord::from_light_years_vec(
            Double { bits: 0x40bf_4000_0000_0000 /* 8000.0 */ },
            Double { bits: 0x0000_0000_0000_0000 /* 0.0 */ },
            Double { bits: 0x4069_0000_0000_0000 /* 200.0 */ },
        );
        let mut camera: Camera = Camera::default();
        camera.position = start;
        let galaxy: Galaxy = Galaxy::new(GalaxyParams::default(), GALAXY_CACHE_CAPACITY);
        Viewer {
            galaxy,
            camera,
            view: ViewParams::default(),
            speed_m_per_s: Double { bits: 0x407f_4000_0000_0000 /* 500.0 */ }.times(Double { bits: METERS_PER_LIGHT_YEAR }),
            last_stats: TraverseStats::default(),
            visible_stars: Vec::new(),
            scene_anchor: start,
            scene_dirty: true,
            observer: start,
            camera_detached: false,
            observer_orientation: camera.orientation,
            last_instances: 0,
            visible_nodes: Vec::new(),
            show_nodes: false,
            show_frustums: false,
            max_wire_nodes: 4096,
        }
    }

    /// Advance the camera by the user's input, and take the tweaks of the magnitude limit and of
    /// the speed.
    pub fn handle_input<M: Fn(Elementary, Double, Double) -> Double>(
        &mut self,
        maths: &M,
        controls: &Controls,
    )
        requires
            reliable(*maths),
            controls.stays_in_range(*maths, old(self).camera, old(self).speed_m_per_s),
        ensures
            *final(self) == old(self).after_input(*maths, *controls),
    {
        let mut camera: Camera = self.camera;
        controls.steer(maths, &mut camera, self.speed_m_per_s);
        self.camera = camera;
        let half: Single = Single { bits: 0x3f00_0000 /* 0.5 */ };
        if controls.more_stars {
            self.view.mag_limit = self.view.mag_limit.plus(half);
            self.scene_dirty = true;
        }
        if controls.fewer_stars {
            self.view.mag_limit = self.view.mag_limit.minus(half);
            self.scene_dirty = true;
        }
        // The wheel adjusts the speed multiplicatively.
        if !controls.scroll.eq_number(Single { bits: 0x0000_0000 /* 0.0 */ }) {
            let factor: Double = evaluate(
                maths,
                Elementary::Pow,
                Double { bits: 0x3ff2_6666_6666_6666 /* 1.15 */ },
                controls.scroll.to_double().over(Double { bits: 0x4044_0000_0000_0000 /* 40.0 */ }),
            );
            self.speed_m_per_s = scale_speed(self.speed_m_per_s, factor);
        }
    }

    /// Moves the observer to the camera, unless that is detached.
    pub fn follow(&mut self)
        ensures
            *final(self) == old(self).following(),
    {
        if !self.camera_detached {
            self.observer = self.camera.position;
            self.observer_orientation = self.camera.orientation;
        }
    }

    /// Detaches the camera, which freezes the observer where the camera is, or attaches it
    /// again, which snaps the camera back to the observer.
    pub fn set_detached(&mut self, detached: bool)
        ensures
            *final(self) == old(self).detached_as(detached),
    {
        self.camera_detached = detached;
        if detached {
            self.observer = self.camera.position;
            self.observer_orientation = self.camera.orientation;
        } else {
            self.camera.position = self.observer;
            self.camera.orientation = self.observer_orientation;
        }
    }

    /// Views under other parameters, which makes the scene stale.
    pub fn set_view(&mut self, view: ViewParams)
        ensures
            *final(self) == (Viewer { view, scene_dirty: true, ..*old(self) }),
    {
        self.view = view;
        self.scene_dirty = true;
    }

    /// Views another galaxy: one with an empty cache and nothing shown yet. Nothing changes where
    /// it is the same one.
    pub fn set_params(&mut self, params: GalaxyParams)
        ensures
            params == old(self).galaxy.params ==> *final(self) == *old(self),
            params != old(self).galaxy.params ==> {
                &&& final(self).galaxy.params == params
                &&& final(self).galaxy.entries() == Seq::<(CacheKey, Seq<Star>)>::empty()
                &&& final(self).galaxy.capacity() == GALAXY_CACHE_CAPACITY
                &&& final(self).visible_stars@.len() == 0
                &&& final(self).visible_nodes@.len() == 0
                &&& *final(self) == (Viewer {
                    galaxy: final(self).galaxy,
                    visible_stars: final(self).visible_stars,
                    visible_nodes: final(self).visible_nodes,
                    last_stats: TraverseStats::nothing(),
                    scene_anchor: old(self).observer,
                    scene_dirty: true,
                    ..*old(self)
                })
            },
    {
        let held: GalaxyParams = self.galaxy.params;
        if held.root_seed == params.root_seed && held.universe_size_m.bits
            == params.universe_size_m.bits && held.total_stars.bits == params.total_stars.bits
            && held.max_depth == params.max_depth {
            return;
        }
        self.galaxy = Galaxy::new(params, GALAXY_CACHE_CAPACITY);
        self.visible_stars = Vec::new();
        self.visible_nodes = Vec::new();
        self.last_stats = TraverseStats::default();
        self.scene_anchor = self.observer;
        self.scene_dirty = true;
    }

    /// Rebuild the visible-star set if the observer moved enough or the parameters changed;
    /// false, and nothing but the cache changed, where something would overflow.
    pub fn try_rebuild_scene<M: Fn(Elementary, Double, Double) -> Double>(
        &mut self,
        maths: &M,
    ) -> (r: bool)
        requires
            reliable(*maths),
            exp_has_floor(*maths),
        ensures
            r == old(self).can_rebuild(*maths),
            r && !old(self).is_stale() ==> *final(self) == *old(self),
            r && old(self).is_stale() ==> final(self).shows(*maths, *old(self)),
            !r ==> final(self).differs_in_cache(*old(self)),
    {
        if !self.observer.is_measurable_from(self.scene_anchor) {
            return false;
        }
        let moved: Double = self.observer.distance_meters(self.scene_anchor);
        let threshold: Double = self.speed_m_per_s.times(Double { bits: 0x3fa9_9999_9999_999a /* 0.05 */ }).max(
            Double { bits: 0x41cd_cd65_0000_0000 /* 1.0e9 */ },
        );
        if self.scene_dirty || moved.gt(threshold) || self.visible_stars.len() == 0 {
            let view: ViewParams = self.view;
            match self.galaxy.try_collect_visible(maths, self.observer, &view) {
                None => {
                    return false;
                },
                Some((stars, stats, nodes)) => {
                    self.visible_stars = stars;
                    self.visible_nodes = nodes;
                    self.last_stats = stats;
                    self.scene_anchor = self.observer;
                    self.scene_dirty = false;
                },
            }
        }
        true
    }

    /// Rebuild the visible-star set if the observer moved enough or the parameters changed.
    pub fn maybe_rebuild_scene<M: Fn(Elementary, Double, Double) -> Double>(&mut self, maths: &M)
        requires
            reliable(*maths),
            exp_has_floor(*maths),
            old(self).can_rebuild(*maths),
        ensures
            !old(self).is_stale() ==> *final(self) == *old(self),
            old(self).is_stale() ==> final(self).shows(*maths, *old(self)),
    {
        let _done: bool = self.try_rebuild_scene(maths);
    }

    /// This viewer is `before` but for what the galaxy has cached.
    pub open spec fn differs_in_cache(self, before: Viewer) -> bool {
        &&& self == Viewer { galaxy: self.galaxy, ..before }
        &&& self.galaxy.params == before.galaxy.params
        &&& self.galaxy.capacity() == before.galaxy.capacity()
    }

    /// The viewer `after` follows this one by one frame of input.
    pub open spec fn advances_to<M: Fn(Elementary, Double, Double) -> Double>(
        self,
        maths: M,
        controls: Controls,
        after: Viewer,
    ) -> bool {
        let moved = self.after_input(maths, controls).following();
        if moved.is_stale() {
            after.shows(maths, moved)
        } else {
            after == moved
        }
    }

    /// One frame's share of work: the input, then the observer, then the scene.
    pub fn advance<M: Fn(Elementary, Double, Double) -> Double>(
        &mut self,
        maths: &M,
        controls: &Controls,
    )
        requires
            reliable(*maths),
            exp_has_floor(*maths),
            controls.stays_in_range(*maths, old(self).camera, old(self).speed_m_per_s),
            old(self).after_input(*maths, *controls).following().can_rebuild(*maths),
        ensures
            old(self).advances_to(*maths, *controls, *final(self)),
    {
        self.handle_input(maths, controls);
        self.follow();
        self.maybe_rebuild_scene(maths);
    }

    /// Where the stars are seen from: the observer, which is the camera unless that is detached.
    pub open spec fn observing(self) -> Camera {
        if self.camera_detached {
            Camera {
                position: self.observer,
                orientation: self.observer_orientation,
                fov_y: self.camera.fov_y,
            }
        } else {
            self.camera
        }
    }

    /// The pose whose frustum is drawn.
    pub open spec fn frozen_pose(self) -> Option<(GalacticCoord, Quaternion)> {
        if self.camera_detached {
            Some((self.observer, self.observer_orientation))
        } else {
            None
        }
    }

    /// What is drawn can be measured from the camera and the observer.
    pub open spec fn can_draw(self) -> bool {
        &&& forall|i: int|
            0 <= i < self.visible_stars@.len() ==> (
            #[trigger] self.visible_stars@[i]).star.pos.measurable_from(self.observing().position)
                && self.visible_stars@[i].star.pos.measurable_from(self.camera.position)
        &&& self.show_nodes ==> nodes_measurable(
            self.galaxy.params,
            self.outlined(),
            self.camera.position,
        )
        &&& self.show_frustums && self.camera_detached ==> self.camera.position.measurable_from(
            self.observer,
        ) && self.observer.measurable_from(self.camera.position)
    }

    /// The nodes that the wireframe outlines.
    pub open spec fn outlined(self) -> Seq<NodeKey> {
        if self.visible_nodes@.len() > self.max_wire_nodes {
            self.visible_nodes@.take(self.max_wire_nodes as int)
        } else {
            self.visible_nodes@
        }
    }

    /// What a frame in a viewport draws, and the viewer after it.
    pub open spec fn draws<M: Fn(Elementary, Double, Double) -> Double>(
        self,
        maths: M,
        viewport: [Single; 2],
        drawn: Frame,
        after: Viewer,
    ) -> bool {
        let aspect = aspect_of(viewport);
        let (eye, seen) = (self.camera, self.observing());
        &&& after == Viewer { last_instances: drawn.stars.instances@.len() as u32, ..self }
        &&& drawn.stars.view_proj == eye.sky_projection(maths, aspect)
        &&& drawn.stars.viewport == viewport
        &&& drawn.stars.px_scale == Single { bits: 0x4000_0000 /* 2.0 */ }
        &&& drawn.stars.instances@ == instances_of(
            maths,
            self.visible_stars@,
            eye.position,
            seen.position,
            seen.sky_projection(maths, aspect),
            self.view.mag_limit,
        )
        &&& match drawn.wire {
            Some(w) => {
                &&& self.show_nodes
                &&& w.instances@ == wire_instances(
                    self.galaxy.params,
                    self.outlined(),
                    eye.position,
                )
                &&& w.view_proj == wire_projection(
                    maths,
                    self.galaxy.params,
                    self.outlined(),
                    eye,
                    aspect,
                )
            },
            None => !self.show_nodes,
        }
        &&& match drawn.frustum {
            Some(f) => {
                &&& self.show_frustums
                &&& f.vertices@ == overlay_lines(maths, eye, aspect, self.frozen_pose())
                &&& f.view_proj == frustum_projection(maths, eye, aspect, self.frozen_pose())
            },
            None => !self.show_frustums,
        }
    }

    /// Prepares what a frame draws in a viewport of `viewport` physical pixels.
    pub fn frame<M: Fn(Elementary, Double, Double) -> Double>(
        &mut self,
        maths: &M,
        viewport: [Single; 2],
    ) -> (r: Frame)
        requires
            reliable(*maths),
            old(self).can_draw(),
        ensures
            old(self).draws(*maths, viewport, r, *final(self)),
    {
        let aspect: Double = viewport_aspect(viewport);
        let observing: Camera = if self.camera_detached {
            Camera {
                position: self.observer,
                orientation: self.observer_orientation,
                fov_y: self.camera.fov_y,
            }
        } else {
            self.camera
        };
        let input: FrameInput<'_> = FrameInput {
            stars: self.visible_stars.as_slice(),
            camera: &self.camera,
            mag_limit: self.view.mag_limit,
        };
        let stars: StarCallback = StarCallback::new(
            maths,
            &input,
            self.camera.view_proj(maths, aspect),
            observing.position,
            observing.view_proj(maths, aspect),
            viewport,
            Single { bits: 0x4000_0000 /* 2.0 */ },
        );
        let wire: Option<WireCallback> = if self.show_nodes {
            let input: WireFrameInput<'_> = WireFrameInput {
                galaxy: &self.galaxy,
                nodes: self.visible_nodes.as_slice(),
                camera: &self.camera,
                max_nodes: self.max_wire_nodes,
                aspect,
            };
            Some(WireCallback::new(maths, &input))
        } else {
            None
        };
        let frustum: Option<FrustumCallback> = if self.show_frustums {
            let pose: Option<(GalacticCoord, Quaternion)> = if self.camera_detached {
                Some((self.observer, self.observer_orientation))
            } else {
                None
            };
            Some(FrustumCallback::new(maths, &self.camera, aspect, pose))
        } else {
            None
        };
        self.last_instances = stars.instance_count();
        Frame { stars, wire, frustum }
    }

    /// A frame of input overflows nothing.
    pub open spec fn is_ready<M: Fn(Elementary, Double, Double) -> Double>(
        self,
        maths: M,
        controls: Controls,
    ) -> bool {
        &&& controls.stays_in_range(maths, self.camera, self.speed_m_per_s)
        &&& self.after_input(maths, controls).following().can_rebuild(maths)
    }

    /// One frame's share of work; false, and nothing but the cache changed, where something would
    /// overflow.
    pub fn try_advance<M: Fn(Elementary, Double, Double) -> Double>(
        &mut self,
        maths: &M,
        controls: &Controls,
    ) -> (r: bool)
        requires
            reliable(*maths),
            exp_has_floor(*maths),
        ensures
            r == old(self).is_ready(*maths, *controls),
            r ==> old(self).advances_to(*maths, *controls, *final(self)),
            !r ==> final(self).differs_in_cache(*old(self)),
    {
        if !controls.can_steer(maths, &self.camera, self.speed_m_per_s) {
            return false;
        }
        let camera: Camera = self.camera;
        let view: ViewParams = self.view;
        let dirty: bool = self.scene_dirty;
        let speed: Double = self.speed_m_per_s;
        let observer: GalacticCoord = self.observer;
        let orientation: Quaternion = self.observer_orientation;
        self.handle_input(maths, controls);
        self.follow();
        if !self.try_rebuild_scene(maths) {
            self.camera = camera;
            self.view = view;
            self.scene_dirty = dirty;
            self.speed_m_per_s = speed;
            self.observer = observer;
            self.observer_orientation = orientation;
            return false;
        }
        true
    }

    /// Whether what is drawn can be measured from the camera and the observer.
    pub fn is_drawable(&self) -> (r: bool)
        ensures
            r == self.can_draw(),
    {
        let eye: GalacticCoord = self.camera.position;
        let seen: GalacticCoord = if self.camera_detached {
            self.observer
        } else {
            self.camera.position
        };
        if self.show_frustums && self.camera_detached && (!eye.is_measurable_from(self.observer)
            || !self.observer.is_measurable_from(eye)) {
            return false;
        }
        let mut i: usize = 0;
        while i < self.visible_stars.len()
            invariant
                i <= self.visible_stars.len(),
                eye == self.camera.position,
                seen == self.observing().position,
                forall|j: int|
                    0 <= j < i ==> (#[trigger] self.visible_stars@[j]).star.pos.measurable_from(seen)
                        && self.visible_stars@[j].star.pos.measurable_from(eye),
            decreases self.visible_stars.len() - i,
        {
            let pos: GalacticCoord = self.visible_stars[i].star.pos;
            if !pos.is_measurable_from(seen) || !pos.is_measurable_from(eye) {
                assert(pos == self.visible_stars@[i as int].star.pos);
                return false;
            }
            i = i + 1;
        }
        if self.show_nodes {
            let count: usize = if self.visible_nodes.len() > self.max_wire_nodes {
                self.max_wire_nodes
            } else {
                self.visible_nodes.len()
            };
            let mut k: usize = 0;
            while k < count
                invariant
                    k <= count,
                    count <= self.visible_nodes.len(),
                    self.show_nodes,
                    eye == self.camera.position,
                    self.outlined() == self.visible_nodes@.take(count as int),
                    nodes_measurable(
                        self.galaxy.params,
                        self.visible_nodes@.take(k as int),
                        eye,
                    ),
                decreases count - k,
            {
                let key: NodeKey = self.visible_nodes[k];
                assert(self.outlined()[k as int] == key);
                if !self.galaxy.can_queue(key, eye) {
                    return false;
                }
                proof {
                    let (held, next) = (
                        self.visible_nodes@.take(k as int),
                        self.visible_nodes@.take(k + 1),
                    );
                    assert forall|j: int| 0 <= j < next.len() implies (#[trigger] next[j]).depth < 64
                        && eye.measurable_from(self.galaxy.params.corner_position(next[j])) by {
                        if j < k {
                            assert(next[j] == held[j]);
                        }
                    }
                }
                k = k + 1;
            }
        }
        true
    }

    /// Prepares what a frame draws; `None`, and nothing done, where something would overflow.
    pub fn try_frame<M: Fn(Elementary, Double, Double) -> Double>(
        &mut self,
        maths: &M,
        viewport: [Single; 2],
    ) -> (r: Option<Frame>)
        requires
            reliable(*maths),
        ensures
            r is Some <==> old(self).can_draw(),
            r matches Some(drawn) ==> old(self).draws(*maths, viewport, drawn, *final(self)),
            r is None ==> *final(self) == *old(self),
    {
        if !self.is_drawable() {
            return None;
        }
        Some(self.frame(maths, viewport))
    }

    /// The viewer `before` with its scene rebuilt.
    pub open spec fn shows<M: Fn(Elementary, Double, Double) -> Double>(
        self,
        maths: M,
        before: Viewer,
    ) -> bool {
        &&& before.galaxy.finds(
            maths,
            before.observer,
            before.view,
            self.visible_stars@,
            self.last_stats,
            self.visible_nodes@,
            self.galaxy,
        )
        &&& self.scene_anchor == before.observer
        &&& !self.scene_dirty
        &&& self == Viewer {
            galaxy: self.galaxy,
            visible_stars: self.visible_stars,
            visible_nodes: self.visible_nodes,
            last_stats: self.last_stats,
            scene_anchor: self.scene_anchor,
            scene_dirty: self.scene_dirty,
            ..before
        }
    }
}

/// What a frame draws.
pub struct Frame {
    pub stars: StarCallback,
    /// The octree nodes, where they are shown.
    pub wire: Option<WireCallback>,
    /// The observer's frustum, where it is shown.
    pub frustum: Option<FrustumCallback>,
}

/// Width over height of a viewport.
pub open spec fn aspect_of(viewport: [Single; 2]) -> Double {
    viewport@[0].quotient(viewport@[1].larger(Single { bits: 0x3f80_0000 /* 1.0 */ })).widened()
}

/// Width over height of a viewport, whose height counts as at least one pixel.
pub fn viewport_aspect(viewport: [Single; 2]) -> (r: Double)
    ensures
        r == aspect_of(viewport),
{
    let width: Single = viewport[0];
    let height: Single = viewport[1];
    width.over(height.max(Single { bits: 0x3f80_0000 /* 1.0 */ })).to_double()
}

/// The frame time that the camera moves by: at most a tenth of a second.
pub fn frame_time(stable_dt: Single) -> (r: Double)
    ensures
        r == stable_dt.smaller(Single { bits: 0x3dcc_cccd /* 0.1 */ }).widened(),
{
    stable_dt.min(Single { bits: 0x3dcc_cccd /* 0.1 */ }).to_double()
}

/// Frames per second of a frame time; none without one.
pub fn frames_per_second(dt: Double) -> (r: Single)
    ensures
        r == if (Double { bits: ZERO }).less(dt) {
            (Double { bits: ONE }).quotient(dt).narrowed()
        } else {
            Single { bits: 0x0000_0000 /* 0.0 */ }
        },
{
    if dt.gt(Double { bits: ZERO }) {
        Double { bits: ONE }.over(dt).to_single()
    } else {
        Single { bits: 0x0000_0000 /* 0.0 */ }
    }
}

/// A coordinate in light-years.
pub fn in_light_years(meters: Double) -> (r: Double)
    ensures
        r == meters.quotient(Double { bits: METERS_PER_LIGHT_YEAR }),
{
    meters.over(Double { bits: METERS_PER_LIGHT_YEAR })
}

/// A unit in which speeds are shown.
#[derive(Clone, Copy, PartialEq, Eq, Structural, Debug)]
pub enum SpeedUnit {
    LightYears,
    AstronomicalUnits,
    Kilometers,
    Meters,
}

/// The unit that suits a speed of `m_per_s` meters per second: the largest of which there is a
/// noticeable amount.
pub open spec fn suitable_unit(m_per_s: Double) -> SpeedUnit {
    let ly = Double { bits: METERS_PER_LIGHT_YEAR };
    let au = Double { bits: METERS_PER_AU };
    if (Double { bits: 0x3f50_624d_d2f1_a9fc /* 0.001 */ }).product(ly).at_most(m_per_s) {
        SpeedUnit::LightYears
    } else if (Double { bits: 0x3f84_7ae1_47ae_147b /* 0.01 */ }).product(au).at_most(m_per_s) {
        SpeedUnit::AstronomicalUnits
    } else if (Double { bits: 0x408f_4000_0000_0000 /* 1000.0 */ }).at_most(m_per_s) {
        SpeedUnit::Kilometers
    } else {
        SpeedUnit::Meters
    }
}

/// A speed in `unit`.
pub open spec fn speed_in(m_per_s: Double, unit: SpeedUnit) -> Double {
    match unit {
        SpeedUnit::LightYears => m_per_s.quotient(Double { bits: METERS_PER_LIGHT_YEAR }),
        SpeedUnit::AstronomicalUnits => m_per_s.quotient(Double { bits: METERS_PER_AU }),
        SpeedUnit::Kilometers => m_per_s.quotient(Double { bits: 0x408f_4000_0000_0000 /* 1000.0 */ }),
        SpeedUnit::Meters => m_per_s,
    }
}

/// How a speed given in meters per second is shown, using an adaptive astronomical unit: the
/// number and its unit.
pub fn readable_speed(m_per_s: Double) -> (r: (Double, SpeedUnit))
    ensures
        r.1 == suitable_unit(m_per_s),
        r.0 == speed_in(m_per_s, r.1),
{
    let ly: Double = Double { bits: METERS_PER_LIGHT_YEAR };
    let au: Double = Double { bits: METERS_PER_AU };
    if (Double { bits: 0x3f50_624d_d2f1_a9fc /* 0.001 */ }).times(ly).le(m_per_s) {
        (m_per_s.over(ly), SpeedUnit::LightYears)
    } else if (Double { bits: 0x3f84_7ae1_47ae_147b /* 0.01 */ }).times(au).le(m_per_s) {
        (m_per_s.over(au), SpeedUnit::AstronomicalUnits)
    } else if (Double { bits: 0x408f_4000_0000_0000 /* 1000.0 */ }).le(m_per_s) {
        (m_per_s.over(Double { bits: 0x408f_4000_0000_0000 /* 1000.0 */ }), SpeedUnit::Kilometers)
    } else {
        (m_per_s, SpeedUnit::Meters)
    }
}

impl SpeedUnit {
    /// The digits behind the point that are shown.
    pub fn digits(self) -> (r: usize)
        ensures
            r == if self == SpeedUnit::LightYears || self == SpeedUnit::AstronomicalUnits {
                3usize
            } else {
                2usize
            },
    {
        match self {
            SpeedUnit::LightYears => 3,
            SpeedUnit::AstronomicalUnits => 3,
            SpeedUnit::Kilometers => 2,
            SpeedUnit::Meters => 2,
        }
    }

    /// The unit's abbreviation.
    pub fn label(self) -> (r: &'static str)
        ensures
            r@ == match self {
                SpeedUnit::LightYears => "ly/s"@,
                SpeedUnit::AstronomicalUnits => "AU/s"@,
                SpeedUnit::Kilometers => "km/s"@,
                SpeedUnit::Meters => "m/s"@,
            },
    {
        match self {
            SpeedUnit::LightYears => "ly/s",
            SpeedUnit::AstronomicalUnits => "AU/s",
            SpeedUnit::Kilometers => "km/s",
            SpeedUnit::Meters => "m/s",
        }
    }
}

} // verus!
